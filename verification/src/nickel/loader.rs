//! Preparing the source of an order for evaluation.
use crate::metadata;
use crate::metadata::{Metadata, MetadataModel};
use crate::nickel::literal;
use crate::nickel::reading;
use crate::text;
use vstd::prelude::*;
use vstd::string::*;

verus! {

/// Evaluates orders with the machine's metadata in them.
#[derive(Debug)]
pub struct NickelEvaluator {
    metadata_nickel: String,
}

/// The import that stands for the machine's metadata.
pub open spec fn metadata_import() -> Seq<char> {
    "import \"blend://metadata\""@
}

/// The machine's metadata as a Nickel record.
pub open spec fn metadata_record(m: MetadataModel) -> Seq<char> {
    literal::nickel_text(metadata::metadata_json(m), seq![])
}

impl NickelEvaluator {
    /// The record that takes the place of the import.
    pub closed spec fn record(&self) -> Seq<char> {
        self.metadata_nickel@
    }

    /// An evaluator for a machine.
    pub fn new(metadata: &Metadata) -> (r: NickelEvaluator)
        ensures
            r.record() == metadata_record(metadata@),
    {
        let record = literal::json_to_nickel(&metadata.to_json(), 0);
        assert(text::repeated("  "@, 0) =~= Seq::<char>::empty());
        NickelEvaluator { metadata_nickel: record }
    }

    /// The source with every import of the metadata replaced by the record.
    pub fn inject_metadata(&self, source: &str) -> (r: String)
        ensures
            r@ == text::replaced(source@, metadata_import(), self.record()),
    {
        proof {
            reveal_strlit("import \"blend://metadata\"");
        }
        text::replace(source, "import \"blend://metadata\"", &self.metadata_nickel)
    }
}

/// A source that does not import the metadata is evaluated as it is.
pub proof fn law_no_import(source: Seq<char>, record: Seq<char>)
    requires
        forall|i: int| 0 <= i <= source.len() ==> !text::begins(#[trigger] source.skip(i), metadata_import()),
    ensures
        text::replaced(source, metadata_import(), record) == source,
{
    text::law_replaced_absent(source, metadata_import(), record);
}

/// The record that stands for the machine reads as its metadata: each field by its
/// name, and a machine without a desktop as one whose desktop is `null`.
pub proof fn law_metadata_read(m: MetadataModel)
    ensures
        reading::literal_value(metadata_record(m)) == Some(metadata::metadata_json(m)),
{
    let v = metadata::metadata_json(m);
    let e = v->Object_0;
    assert(reading::numbers_written(v)) by {
        assert forall|i: int| 0 <= i < e.len() implies reading::numbers_written(
            (#[trigger] e[i]).1,
        ) by {}
    }
    assert(text::repeated("  "@, 0) =~= Seq::<char>::empty());
    reading::law_literal_read_back(v, 0);
}

/// Where a source imports the metadata, the record takes the place of the import,
/// and the source before it stays as it is.
pub proof fn law_import_replaced(head: Seq<char>, tail: Seq<char>, record: Seq<char>)
    requires
        forall|i: int|
            0 <= i < head.len() ==> !text::begins(
                #[trigger] (head + metadata_import() + tail).skip(i),
                metadata_import(),
            ),
    ensures
        text::replaced(head + metadata_import() + tail, metadata_import(), record) == head + record
            + text::replaced(tail, metadata_import(), record),
{
    reveal_strlit("import \"blend://metadata\"");
    text::law_replaced_first(head, metadata_import(), tail, record);
}

} // verus!
