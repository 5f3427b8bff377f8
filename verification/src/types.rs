//! The records of a dataset listing and of its summary.

use crate::sorted::distinct_names;
use vstd::prelude::*;

verus! {

/// Where a property's value comes from. Carried along, never interpreted.
#[derive(Debug, Clone)]
pub struct PropertySource {
    pub source_type: String,
    pub data: String,
}

/// One property of a dataset: its raw text and its provenance.
#[derive(Debug, Clone)]
pub struct Property {
    pub value: String,
    pub source: PropertySource,
}

/// The four properties that a listing reports for every dataset.
#[derive(Debug, Clone)]
pub struct DatasetProperties {
    pub used: Property,
    pub available: Property,
    pub referenced: Property,
    pub mountpoint: Property,
}

/// A filesystem, snapshot or bookmark, named by a slash-delimited path.
#[derive(Debug, Clone)]
pub struct Dataset {
    pub name: String,
    pub dataset_type: String,
    pub pool: String,
    pub createtxg: String,
    pub dataset: Option<String>,
    pub snapshot_name: Option<String>,
    pub properties: DatasetProperties,
}

/// The listing tool and the version of its output format.
#[derive(Debug, Clone)]
pub struct OutputVersion {
    pub command: String,
    pub vers_major: u32,
    pub vers_minor: u32,
}

/// A listing as the tool reports it: each dataset under an opaque key.
///
/// The entries are kept in the order in which they were handed over. A
/// listing is well formed when no key and no dataset name occurs twice;
/// the order of its entries then does not show in its summary.
#[derive(Debug, Clone)]
pub struct ZfsListOutput {
    pub output_version: OutputVersion,
    pub datasets: Vec<(String, Dataset)>,
}

/// The summary of a listing.
#[derive(Debug, Clone)]
pub struct ZfsStats {
    pub pools: Vec<String>,
    pub filesystems: Vec<Dataset>,
    pub snapshots: Vec<Dataset>,
    pub bookmarks: Vec<Dataset>,
    pub total_used: String,
    pub total_available: String,
}

/// The texts of the keys of the entries, in order.
pub open spec fn keys_of(entries: Seq<(String, Dataset)>) -> Seq<Seq<char>> {
    Seq::new(entries.len(), |i: int| entries[i].0@)
}

/// The datasets of the entries, in order.
pub open spec fn datasets_of(entries: Seq<(String, Dataset)>) -> Seq<Dataset> {
    Seq::new(entries.len(), |i: int| entries[i].1)
}

impl ZfsListOutput {
    /// The keys of the entries, in order.
    pub open spec fn keys(&self) -> Seq<Seq<char>> {
        keys_of(self.datasets@)
    }

    /// The datasets of the entries, in order.
    pub open spec fn records(&self) -> Seq<Dataset> {
        datasets_of(self.datasets@)
    }

    /// No key occurs twice, and no two datasets have the same name: the
    /// listing is a map from keys to datasets, each named apart. The
    /// summary of such a listing depends on the map alone, not on the order
    /// of its entries.
    pub open spec fn wf(&self) -> bool {
        self.keys().no_duplicates() && distinct_names(self.records())
    }
}

} // verus!
