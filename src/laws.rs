//! Laws that relate writing a data record to reading it back.
use crate::data::{entry_value, fields_end, record_bytes, Entries};
use crate::template_store::ExpandedFieldSpecifier;
use crate::value::{lemma_value_round_trip, value_bytes, value_fits};
use vstd::prelude::*;

verus! {

/// Every field of `fields` has a value in `entries` of the variant and
/// size that the field reads.
pub open spec fn entries_fit(fields: Seq<ExpandedFieldSpecifier>, entries: Entries) -> bool {
    forall|i: int|
        0 <= i < fields.len() ==> entry_value(entries, (#[trigger] fields[i]).name) is Some
            && value_fits(
            entry_value(entries, fields[i].name)->Some_0,
            fields[i].ty,
            fields[i].field_length,
        )
}

/// A record written by a template ends where its bytes do when read back by
/// the same template, whatever bytes surround it.
pub proof fn lemma_record_extent(
    fields: Seq<ExpandedFieldSpecifier>,
    entries: Entries,
    before: Seq<u8>,
    after: Seq<u8>,
)
    requires
        record_bytes(fields, entries) is Ok,
        entries_fit(fields, entries),
    ensures
        fields_end(fields, before + record_bytes(fields, entries)->Ok_0 + after, before.len())
            == Some(before.len() + record_bytes(fields, entries)->Ok_0.len()),
    decreases fields.len(),
{
    if fields.len() > 0 {
        let f0 = fields.drop_last();
        let f = fields.last();
        let b0 = record_bytes(f0, entries)->Ok_0;
        let v = entry_value(entries, f.name)->Some_0;
        let x = value_bytes(v, f.field_length)->Some_0;
        let buf = before + (b0 + x) + after;
        assert(buf =~= before + b0 + (x + after));
        assert(buf =~= (before + b0) + x + after);
        assert(fields[fields.len() - 1] == f);
        assert(entries_fit(f0, entries)) by {
            assert forall|i: int| 0 <= i < f0.len() implies entry_value(
                entries,
                (#[trigger] f0[i]).name,
            ) is Some && value_fits(
                entry_value(entries, f0[i].name)->Some_0,
                f0[i].ty,
                f0[i].field_length,
            ) by {
                assert(fields[i] == f0[i]);
            }
        }
        lemma_record_extent(f0, entries, before, x + after);
        lemma_value_round_trip(v, f.ty, f.field_length, before + b0, after);
    }
}

} // verus!
