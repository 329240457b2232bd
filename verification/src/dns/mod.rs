//! The DNS data model: fully-qualified domain names and resource records.

mod fqdn;
mod record;

pub use fqdn::DOT;
pub use fqdn::Fqdn;
pub use fqdn::canon_of;
pub use fqdn::canonical_name;
pub use fqdn::count_labels;
pub use fqdn::fqdn;
pub use fqdn::is_ancestor_of;
pub use fqdn::lemma_ancestor_same_len;
pub use fqdn::lower_byte;
pub use fqdn::lower_bytes;
pub use fqdn::parent_name;
pub use fqdn::parse_ok;
pub use fqdn::strip_root;
pub use fqdn::valid_label_byte;
pub use record::DataV;
pub use record::Record;
pub use record::RecordData;
pub use record::RecordKind;
pub use record::RecordSet;
pub use record::RecordSource;
pub use record::RecordV;
pub use record::SoaData;
pub use record::SoaV;
pub use record::first_cname;
pub use record::has_key;
pub use record::has_name;
pub use record::kind_of;
pub use record::lemma_first_cname_member;
pub use record::lemma_matching_members;
pub use record::matching;
pub use record::rec_key;
pub use record::rec_wf;
pub use record::recs_wf;
pub use record::with_parent;
pub use record::lemma_with_parent_props;
pub use record::set_keys;
