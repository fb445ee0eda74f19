//! Sets and messages: the framing around records, with lengths patched in
//! once the content is written.
use crate::bytes::{be_bytes, be_value, copy_range, lemma_be_bytes_len, lemma_be_round_trip, lemma_be_value_bound, lemma_radix_values, patch_u16, push_be, read_be};
use crate::data::{record_bytes, entries_from, fields_decoded, fields_end, fields_error, DataRecord};
use crate::error::IpfixError;
use crate::records::{options_template_record_bytes, template_record_bytes, 
    parse_options_template_record, parse_template_record, OptionsTemplateRecord, TemplateRecord,
};
use crate::value::DataRecordValue;
use crate::template_store::{expand, ExpandedFieldSpecifier, InformationElement, after_options_template_records, after_template_records, template_view, Formatter, Template, TemplateStorage};
use vstd::prelude::*;

verus! {

/// The records of one set, all of one kind.
#[derive(Clone, Debug, PartialEq)]
pub enum Records {
    Template(Vec<TemplateRecord>),
    OptionsTemplate(Vec<OptionsTemplateRecord>),
    /// Data records of the template whose id is the set id.
    Data { set_id: u16, data: Vec<DataRecord> },
}

/// Set id of template sets.
pub const TEMPLATE_SET_ID: u16 = 2;

/// Set id of options template sets.
pub const OPTIONS_TEMPLATE_SET_ID: u16 = 3;

/// Set ids 0, 1 and 4 to 255 are reserved.
pub open spec fn reserved_set_id(id: u16) -> bool {
    id <= 255 && id != TEMPLATE_SET_ID && id != OPTIONS_TEMPLATE_SET_ID
}

impl Records {
    pub open spec fn spec_set_id(&self) -> u16 {
        match self {
            Records::Template(_) => TEMPLATE_SET_ID,
            Records::OptionsTemplate(_) => OPTIONS_TEMPLATE_SET_ID,
            Records::Data { set_id, .. } => *set_id,
        }
    }

    /// The set id that announces these records on the wire.
    pub fn set_id(&self) -> (r: u16)
        ensures
            r == self.spec_set_id(),
    {
        match self {
            Records::Template(_) => TEMPLATE_SET_ID,
            Records::OptionsTemplate(_) => OPTIONS_TEMPLATE_SET_ID,
            Records::Data { set_id, .. } => *set_id,
        }
    }
}

/// A set: a length-delimited group of records.
#[derive(Clone, Debug, PartialEq)]
pub struct RecordSet {
    pub records: Records,
}

/// The set header at `pos` is complete, its length exceeds the header, the
/// set fits in `buf` and its id is not reserved. Else the error it gives.
pub open spec fn set_header_error(buf: Seq<u8>, pos: nat) -> Option<IpfixError> {
    if pos + 4 > buf.len() {
        Some(IpfixError::Truncated)
    } else {
        let id = be_value(buf.subrange(pos as int, pos + 2 as int)) as u16;
        let length = be_value(buf.subrange(pos + 2 as int, pos + 4 as int));
        if length <= 4 {
            Some(IpfixError::InvalidSetLength(length as u16))
        } else if pos + length > buf.len() {
            Some(IpfixError::Truncated)
        } else if reserved_set_id(id) {
            Some(IpfixError::ReservedSetId(id))
        } else {
            None
        }
    }
}

/// The id of the set whose header is at `pos`.
pub open spec fn set_id_at(buf: Seq<u8>, pos: nat) -> u16 {
    be_value(buf.subrange(pos as int, pos + 2 as int)) as u16
}

/// The length field of the set whose header is at `pos`.
pub open spec fn set_length_at(buf: Seq<u8>, pos: nat) -> nat {
    be_value(buf.subrange(pos + 2 as int, pos + 4 as int))
}

/// Template records read one after another from `p` to the end of `content`.
pub open spec fn parse_template_records(content: Seq<u8>, p: nat) -> Result<
    Seq<(u16, Seq<crate::field::FieldSpecifier>)>,
    IpfixError,
>
    decreases content.len() - p,
{
    if p >= content.len() {
        Ok(Seq::empty())
    } else {
        match parse_template_record(content, p) {
            Err(e) => Err(e),
            Ok((id, s, e)) => if e <= p || e > content.len() {
                Err(IpfixError::Truncated)
            } else {
                match parse_template_records(content, e) {
                    Err(x) => Err(x),
                    Ok(rest) => Ok(seq![(id, s)] + rest),
                }
            },
        }
    }
}

/// Options template records read one after another from `p` to the end of
/// `content`.
pub open spec fn parse_options_template_records(content: Seq<u8>, p: nat) -> Result<
    Seq<(u16, u16, Seq<crate::field::FieldSpecifier>)>,
    IpfixError,
>
    decreases content.len() - p,
{
    if p >= content.len() {
        Ok(Seq::empty())
    } else {
        match parse_options_template_record(content, p) {
            Err(e) => Err(e),
            Ok((id, scope, s, e)) => if e <= p || e > content.len() {
                Err(IpfixError::Truncated)
            } else {
                match parse_options_template_records(content, e) {
                    Err(x) => Err(x),
                    Ok(rest) => Ok(seq![(id, scope, s)] + rest),
                }
            },
        }
    }
}

/// What a template record holds, as the wire shows it.
pub open spec fn template_record_view(t: TemplateRecord) -> (u16, Seq<crate::field::FieldSpecifier>) {
    (t.template_id, t.field_specifiers@)
}

/// What an options template record holds, as the wire shows it.
pub open spec fn options_template_record_view(t: OptionsTemplateRecord) -> (
    u16,
    u16,
    Seq<crate::field::FieldSpecifier>,
) {
    (t.template_id, t.scope_field_count, t.field_specifiers@)
}

/// Where the data records of `fields` start when read one after another
/// from `p` to the end of `content`.
pub open spec fn parse_data_records(
    fields: Seq<ExpandedFieldSpecifier>,
    content: Seq<u8>,
    p: nat,
) -> Result<Seq<nat>, IpfixError>
    decreases content.len() - p,
{
    if p >= content.len() {
        Ok(Seq::empty())
    } else {
        match fields_end(fields, content, p) {
            None => Err(fields_error(fields, content, p)),
            Some(e) => if e <= p || e > content.len() {
                Err(IpfixError::EmptyRecord)
            } else {
                match parse_data_records(fields, content, e) {
                    Err(x) => Err(x),
                    Ok(rest) => Ok(seq![p] + rest),
                }
            },
        }
    }
}

/// `rec` is the data record of `fields` read at `start`.
pub open spec fn data_record_at(
    fields: Seq<ExpandedFieldSpecifier>,
    content: Seq<u8>,
    start: nat,
    rec: DataRecord,
) -> bool {
    &&& rec.wf()
    &&& exists|vals: Seq<DataRecordValue>|
        fields_decoded(fields, content, start, vals) && rec.values@ == entries_from(fields, vals)
}

fn read_template_records(content: &[u8]) -> (r: Result<Vec<TemplateRecord>, IpfixError>)
    ensures
        match parse_template_records(content@, 0) {
            Ok(s) => r matches Ok(v) && v@.map_values(|t: TemplateRecord| template_record_view(t))
                == s,
            Err(e) => r == Err::<Vec<TemplateRecord>, IpfixError>(e),
        },
{
    let mut v: Vec<TemplateRecord> = Vec::new();
    let mut p: usize = 0;
    while p < content.len()
        invariant
            p <= content@.len(),
            parse_template_records(content@, 0) == match parse_template_records(content@, p as nat) {
                Ok(rest) => Ok(v@.map_values(|t: TemplateRecord| template_record_view(t)) + rest),
                Err(e) => Err(e),
            },
        decreases content@.len() - p,
    {
        let (t, e) = TemplateRecord::read(content, p)?;
        if e <= p {
            return Err(IpfixError::Truncated);
        }
        let ghost old_v = v@;
        v.push(t);
        proof {
            let rest = parse_template_records(content@, e as nat);
            assert(v@.map_values(|t: TemplateRecord| template_record_view(t)) =~= old_v.map_values(
                |t: TemplateRecord| template_record_view(t),
            ).push(template_record_view(t)));
            if let Ok(rs) = rest {
                assert(v@.map_values(|t: TemplateRecord| template_record_view(t)) + rs =~= old_v.map_values(
                    |t: TemplateRecord| template_record_view(t),
                ) + (seq![template_record_view(t)] + rs));
            }
        }
        p = e;
    }
    assert(v@.map_values(|t: TemplateRecord| template_record_view(t)) + Seq::empty() =~= v@.map_values(
        |t: TemplateRecord| template_record_view(t),
    ));
    Ok(v)
}

fn read_options_template_records(content: &[u8]) -> (r: Result<Vec<OptionsTemplateRecord>, IpfixError>)
    ensures
        match parse_options_template_records(content@, 0) {
            Ok(s) => r matches Ok(v) && v@.map_values(
                |t: OptionsTemplateRecord| options_template_record_view(t),
            ) == s,
            Err(e) => r == Err::<Vec<OptionsTemplateRecord>, IpfixError>(e),
        },
{
    let mut v: Vec<OptionsTemplateRecord> = Vec::new();
    let mut p: usize = 0;
    while p < content.len()
        invariant
            p <= content@.len(),
            parse_options_template_records(content@, 0) == match parse_options_template_records(
                content@,
                p as nat,
            ) {
                Ok(rest) => Ok(
                    v@.map_values(|t: OptionsTemplateRecord| options_template_record_view(t)) + rest,
                ),
                Err(e) => Err(e),
            },
        decreases content@.len() - p,
    {
        let (t, e) = OptionsTemplateRecord::read(content, p)?;
        if e <= p {
            return Err(IpfixError::Truncated);
        }
        let ghost old_v = v@;
        v.push(t);
        proof {
            let rest = parse_options_template_records(content@, e as nat);
            assert(v@.map_values(|t: OptionsTemplateRecord| options_template_record_view(t))
                =~= old_v.map_values(
                |t: OptionsTemplateRecord| options_template_record_view(t),
            ).push(options_template_record_view(t)));
            if let Ok(rs) = rest {
                assert(v@.map_values(|t: OptionsTemplateRecord| options_template_record_view(t)) + rs
                    =~= old_v.map_values(
                    |t: OptionsTemplateRecord| options_template_record_view(t),
                ) + (seq![options_template_record_view(t)] + rs));
            }
        }
        p = e;
    }
    assert(v@.map_values(|t: OptionsTemplateRecord| options_template_record_view(t))
        + Seq::empty() =~= v@.map_values(
        |t: OptionsTemplateRecord| options_template_record_view(t),
    ));
    Ok(v)
}

fn read_data_records(fields: &Vec<ExpandedFieldSpecifier>, content: &[u8]) -> (r: Result<
    Vec<DataRecord>,
    IpfixError,
>)
    ensures
        match parse_data_records(fields@, content@, 0) {
            Ok(starts) => r matches Ok(v) && v@.len() == starts.len() && forall|i: int|
                0 <= i < v@.len() ==> data_record_at(
                    fields@,
                    content@,
                    #[trigger] starts[i],
                    v@[i],
                ),
            Err(e) => r == Err::<Vec<DataRecord>, IpfixError>(e),
        },
{
    let mut v: Vec<DataRecord> = Vec::new();
    let mut p: usize = 0;
    let ghost mut starts: Seq<nat> = Seq::empty();
    while p < content.len()
        invariant
            p <= content@.len(),
            v@.len() == starts.len(),
            forall|i: int|
                0 <= i < v@.len() ==> data_record_at(fields@, content@, #[trigger] starts[i], v@[i]),
            parse_data_records(fields@, content@, 0) == match parse_data_records(
                fields@,
                content@,
                p as nat,
            ) {
                Ok(rest) => Ok(starts + rest),
                Err(e) => Err(e),
            },
        decreases content@.len() - p,
    {
        let (rec, e) = DataRecord::read_fields(fields, content, p)?;
        if e <= p {
            return Err(IpfixError::EmptyRecord);
        }
        let ghost old_starts = starts;
        v.push(rec);
        proof {
            starts = starts.push(p as nat);
            let rest = parse_data_records(fields@, content@, e as nat);
            if let Ok(rs) = rest {
                assert(starts + rs =~= old_starts + (seq![p as nat] + rs));
            }
            assert forall|i: int| 0 <= i < v@.len() implies data_record_at(
                fields@,
                content@,
                #[trigger] starts[i],
                v@[i],
            ) by {
                if i < v@.len() - 1 {
                    assert(starts[i] == old_starts[i]);
                }
            }
        }
        p = e;
    }
    assert(starts + Seq::empty() =~= starts);
    Ok(v)
}

/// The bytes of a sequence of template records, or why they cannot be
/// written.
pub open spec fn template_records_bytes(s: Seq<TemplateRecord>) -> Result<Seq<u8>, IpfixError>
    decreases s.len(),
{
    if s.len() == 0 {
        Ok(Seq::empty())
    } else {
        match template_records_bytes(s.drop_last()) {
            Err(e) => Err(e),
            Ok(b) => if s.last().template_id <= 255 {
                Err(IpfixError::ReservedTemplateId(s.last().template_id))
            } else if s.last().field_specifiers@.len() > 0xFFFF {
                Err(IpfixError::ValueOverflow)
            } else {
                Ok(b + template_record_bytes(s.last().template_id, s.last().field_specifiers@))
            },
        }
    }
}

/// The bytes of a sequence of options template records, or why they cannot
/// be written.
pub open spec fn options_template_records_bytes(s: Seq<OptionsTemplateRecord>) -> Result<
    Seq<u8>,
    IpfixError,
>
    decreases s.len(),
{
    if s.len() == 0 {
        Ok(Seq::empty())
    } else {
        match options_template_records_bytes(s.drop_last()) {
            Err(e) => Err(e),
            Ok(b) => if s.last().template_id <= 255 {
                Err(IpfixError::ReservedTemplateId(s.last().template_id))
            } else if s.last().field_specifiers@.len() > 0xFFFF {
                Err(IpfixError::ValueOverflow)
            } else {
                Ok(
                    b + options_template_record_bytes(
                        s.last().template_id,
                        s.last().scope_field_count,
                        s.last().field_specifiers@,
                    ),
                )
            },
        }
    }
}

/// The bytes of a sequence of data records of template `set_id`, or why
/// they cannot be written.
pub open spec fn data_records_bytes(
    set_id: u16,
    templates: Map<u16, Template>,
    s: Seq<DataRecord>,
) -> Result<Seq<u8>, IpfixError>
    decreases s.len(),
{
    if s.len() == 0 {
        Ok(Seq::empty())
    } else {
        match data_records_bytes(set_id, templates, s.drop_last()) {
            Err(e) => Err(e),
            Ok(b) => if set_id <= 255 {
                Err(IpfixError::ReservedSetId(set_id))
            } else if !templates.contains_key(set_id) {
                Err(IpfixError::MissingTemplate(set_id))
            } else {
                match record_bytes(templates[set_id].fields(), s.last().values@) {
                    Err(e) => Err(e),
                    Ok(x) => Ok(b + x),
                }
            },
        }
    }
}

/// The content of a set: its records one after another.
pub open spec fn set_content_bytes(records: Records, templates: Map<u16, Template>) -> Result<
    Seq<u8>,
    IpfixError,
> {
    match records {
        Records::Template(v) => template_records_bytes(v@),
        Records::OptionsTemplate(v) => options_template_records_bytes(v@),
        Records::Data { set_id, data } => data_records_bytes(set_id, templates, data@),
    }
}

/// The zero bytes that bring a buffer of `len` bytes to a multiple of
/// `alignment`; none for an alignment of 0 or 1.
pub open spec fn padding(len: nat, alignment: u8) -> nat {
    if alignment <= 1 {
        0
    } else {
        ((alignment as int - (len as int) % (alignment as int)) % (alignment as int)) as nat
    }
}

/// `n` zero bytes.
pub open spec fn zeros(n: nat) -> Seq<u8> {
    Seq::new(n, |i: int| 0u8)
}

/// The bytes of a set written where the buffer holds `at` bytes: set id,
/// length of the whole set, content, padding. Or why it cannot be written.
pub open spec fn set_bytes(
    set: RecordSet,
    templates: Map<u16, Template>,
    alignment: u8,
    at: nat,
) -> Result<Seq<u8>, IpfixError> {
    if set.records is Data && set.records.spec_set_id() <= 255 {
        Err(IpfixError::ReservedSetId(set.records.spec_set_id()))
    } else {
    match set_content_bytes(set.records, templates) {
        Err(e) => Err(e),
        Ok(c) => {
            let pad = padding(at + 4 + c.len(), alignment);
            let n = 4 + c.len() + pad;
            if n > 0xFFFF {
                Err(IpfixError::ValueOverflow)
            } else {
                Ok(
                    be_bytes(set.records.spec_set_id() as nat, 2) + be_bytes(n, 2) + c + zeros(
                        pad,
                    ),
                )
            }
        },
    }
    }
}

proof fn lemma_template_bytes_fail(s: Seq<TemplateRecord>, k: nat, n: nat)
    requires
        k <= n <= s.len(),
        template_records_bytes(s.take(k as int)) is Err,
    ensures
        template_records_bytes(s.take(n as int)) == template_records_bytes(s.take(k as int)),
    decreases n - k,
{
    if k < n {
        lemma_template_bytes_fail(s, k, (n - 1) as nat);
        assert(s.take(n as int).drop_last() =~= s.take(n - 1 as int));
    }
}

proof fn lemma_options_bytes_fail(s: Seq<OptionsTemplateRecord>, k: nat, n: nat)
    requires
        k <= n <= s.len(),
        options_template_records_bytes(s.take(k as int)) is Err,
    ensures
        options_template_records_bytes(s.take(n as int)) == options_template_records_bytes(
            s.take(k as int),
        ),
    decreases n - k,
{
    if k < n {
        lemma_options_bytes_fail(s, k, (n - 1) as nat);
        assert(s.take(n as int).drop_last() =~= s.take(n - 1 as int));
    }
}

proof fn lemma_data_bytes_fail(
    set_id: u16,
    templates: Map<u16, Template>,
    s: Seq<DataRecord>,
    k: nat,
    n: nat,
)
    requires
        k <= n <= s.len(),
        data_records_bytes(set_id, templates, s.take(k as int)) is Err,
    ensures
        data_records_bytes(set_id, templates, s.take(n as int)) == data_records_bytes(
            set_id,
            templates,
            s.take(k as int),
        ),
    decreases n - k,
{
    if k < n {
        lemma_data_bytes_fail(set_id, templates, s, k, (n - 1) as nat);
        assert(s.take(n as int).drop_last() =~= s.take(n - 1 as int));
    }
}

/// The bytes written since the buffer held `start` bytes.
pub open spec fn written(out: Seq<u8>, start: nat) -> Seq<u8> {
    out.subrange(start as int, out.len() as int)
}

fn write_template_records(v: &Vec<TemplateRecord>, out: &mut Vec<u8>) -> (r: Result<(), IpfixError>)
    ensures
        final(out)@.len() >= old(out)@.len(),
        final(out)@.subrange(0, old(out)@.len() as int) == old(out)@,
        match template_records_bytes(v@) {
            Ok(b) => r is Ok && final(out)@ == old(out)@ + b,
            Err(e) => r == Err::<(), IpfixError>(e),
        },
{
    let mut i: usize = 0;
    assert(v@.take(0) =~= Seq::<TemplateRecord>::empty());
    assert(out@ =~= old(out)@ + Seq::<u8>::empty());
    while i < v.len()
        invariant
            i <= v@.len(),
            template_records_bytes(v@.take(i as int)) matches Ok(b) && out@ == old(out)@ + b,
        decreases v@.len() - i,
    {
        let ghost pre = v@.take(i as int);
        let ghost b = template_records_bytes(pre)->Ok_0;
        assert(v@.take(i + 1 as int).drop_last() =~= pre);
        match v[i].write(out) {
            Ok(()) => {
                assert(out@ =~= old(out)@ + (b + template_record_bytes(
                    v@[i as int].template_id,
                    v@[i as int].field_specifiers@,
                )));
            },
            Err(e) => {
                proof {
                    lemma_template_bytes_fail(v@, (i + 1) as nat, v@.len());
                    assert(out@.subrange(0, old(out)@.len() as int) =~= old(out)@);
                    assert(v@.take(v@.len() as int) =~= v@);
                }
                return Err(e);
            },
        }
        i = i + 1;
    }
    assert(v@.take(i as int) =~= v@);
    assert(out@.subrange(0, old(out)@.len() as int) =~= old(out)@);
    Ok(())
}

fn write_options_template_records(v: &Vec<OptionsTemplateRecord>, out: &mut Vec<u8>) -> (r: Result<
    (),
    IpfixError,
>)
    ensures
        final(out)@.len() >= old(out)@.len(),
        final(out)@.subrange(0, old(out)@.len() as int) == old(out)@,
        match options_template_records_bytes(v@) {
            Ok(b) => r is Ok && final(out)@ == old(out)@ + b,
            Err(e) => r == Err::<(), IpfixError>(e),
        },
{
    let mut i: usize = 0;
    assert(v@.take(0) =~= Seq::<OptionsTemplateRecord>::empty());
    assert(out@ =~= old(out)@ + Seq::<u8>::empty());
    while i < v.len()
        invariant
            i <= v@.len(),
            options_template_records_bytes(v@.take(i as int)) matches Ok(b) && out@ == old(out)@
                + b,
        decreases v@.len() - i,
    {
        let ghost pre = v@.take(i as int);
        let ghost b = options_template_records_bytes(pre)->Ok_0;
        assert(v@.take(i + 1 as int).drop_last() =~= pre);
        match v[i].write(out) {
            Ok(()) => {
                assert(out@ =~= old(out)@ + (b + options_template_record_bytes(
                    v@[i as int].template_id,
                    v@[i as int].scope_field_count,
                    v@[i as int].field_specifiers@,
                )));
            },
            Err(e) => {
                proof {
                    lemma_options_bytes_fail(v@, (i + 1) as nat, v@.len());
                    assert(out@.subrange(0, old(out)@.len() as int) =~= old(out)@);
                    assert(v@.take(v@.len() as int) =~= v@);
                }
                return Err(e);
            },
        }
        i = i + 1;
    }
    assert(v@.take(i as int) =~= v@);
    assert(out@.subrange(0, old(out)@.len() as int) =~= old(out)@);
    Ok(())
}

fn write_data_records<S: TemplateStorage>(
    set_id: u16,
    v: &Vec<DataRecord>,
    templates: &S,
    out: &mut Vec<u8>,
) -> (r: Result<(), IpfixError>)
    ensures
        final(out)@.len() >= old(out)@.len(),
        final(out)@.subrange(0, old(out)@.len() as int) == old(out)@,
        match data_records_bytes(set_id, templates.templates(), v@) {
            Ok(b) => r is Ok && final(out)@ == old(out)@ + b,
            Err(e) => r == Err::<(), IpfixError>(e),
        },
{
    let mut i: usize = 0;
    assert(v@.take(0) =~= Seq::<DataRecord>::empty());
    assert(out@ =~= old(out)@ + Seq::<u8>::empty());
    while i < v.len()
        invariant
            i <= v@.len(),
            data_records_bytes(set_id, templates.templates(), v@.take(i as int)) matches Ok(b)
                && out@ == old(out)@ + b,
        decreases v@.len() - i,
    {
        let ghost pre = v@.take(i as int);
        let ghost b = data_records_bytes(set_id, templates.templates(), pre)->Ok_0;
        assert(v@.take(i + 1 as int).drop_last() =~= pre);
        let ghost before = out@;
        match v[i].write(set_id, templates, out) {
            Ok(()) => {
                assert(out@ =~= old(out)@ + (b + written(out@, before.len())));
            },
            Err(e) => {
                proof {
                    lemma_data_bytes_fail(set_id, templates.templates(), v@, (i + 1) as nat, v@.len());
                    assert(out@.subrange(0, old(out)@.len() as int) =~= old(out)@);
                    assert(v@.take(v@.len() as int) =~= v@);
                }
                return Err(e);
            },
        }
        i = i + 1;
    }
    assert(v@.take(i as int) =~= v@);
    assert(out@.subrange(0, old(out)@.len() as int) =~= old(out)@);
    Ok(())
}

/// The template records of a template set.
pub open spec fn template_records_of(set: RecordSet) -> Seq<TemplateRecord> {
    match set.records {
        Records::Template(v) => v@,
        _ => Seq::empty(),
    }
}

/// The options template records of an options template set.
pub open spec fn options_template_records_of(set: RecordSet) -> Seq<OptionsTemplateRecord> {
    match set.records {
        Records::OptionsTemplate(v) => v@,
        _ => Seq::empty(),
    }
}

/// The data records of a data set.
pub open spec fn data_records_of(set: RecordSet) -> Seq<DataRecord> {
    match set.records {
        Records::Data { data, .. } => data@,
        _ => Seq::empty(),
    }
}

/// Appends zero bytes up to the next multiple of `alignment`; returns how
/// many.
fn pad_to(alignment: u8, out: &mut Vec<u8>) -> (pad: usize)
    ensures
        pad == padding(old(out)@.len(), alignment),
        final(out)@ == old(out)@ + zeros(pad as nat),
{
    let ghost mid = out@;
    let mut pad: usize = 0;
    if alignment > 1 {
        let a = alignment as usize;
        pad = (a - out.len() % a) % a;
    }
    let mut k: usize = 0;
    assert(out@ =~= mid + zeros(0));
    while k < pad
        invariant
            k <= pad,
            out@ == mid + zeros(k as nat),
        decreases pad - k,
    {
        out.push(0u8);
        k = k + 1;
        assert(out@ =~= mid + zeros(k as nat));
    }
    pad
}

impl RecordSet {
    /// Reads the set at `pos`. Template and options template sets install
    /// their templates in `templates` as they are read; a data set reads its
    /// records by the template stored under its set id.
    pub fn read<S: TemplateStorage>(
        buf: &[u8],
        pos: usize,
        templates: &mut S,
        formatter: &Formatter,
    ) -> (r: Result<(RecordSet, usize), IpfixError>)
        requires
            pos <= buf.len(),
        ensures
            r matches Ok((_, e)) ==> set_header_error(buf@, pos as nat) is None && e == pos
                + set_length_at(buf@, pos as nat),
            match set_header_error(buf@, pos as nat) {
                Some(e) => r == Err::<(RecordSet, usize), IpfixError>(e) && final(templates).templates()
                    == old(templates).templates(),
                None => {
                    let id = set_id_at(buf@, pos as nat);
                    let end = pos + set_length_at(buf@, pos as nat);
                    let content = buf@.subrange(pos + 4, end);
                    let before = old(templates).templates().map_values(|t: Template| template_view(t));
                    if id == TEMPLATE_SET_ID {
                        match parse_template_records(content, 0) {
                            Ok(s) => r matches Ok((set, e)) && e == end && set.records is Template
                                && template_records_of(set).map_values(|t: TemplateRecord| template_record_view(t)) == s
                                && final(templates).templates().map_values(|t: Template| template_view(t))
                                == after_template_records(before, template_records_of(set), formatter.elements@),
                            Err(e) => r == Err::<(RecordSet, usize), IpfixError>(e)
                                && final(templates).templates() == old(templates).templates(),
                        }
                    } else if id == OPTIONS_TEMPLATE_SET_ID {
                        match parse_options_template_records(content, 0) {
                            Ok(s) => r matches Ok((set, e)) && e == end
                                && set.records is OptionsTemplate && options_template_records_of(set).map_values(
                                |t: OptionsTemplateRecord| options_template_record_view(t),
                            ) == s && final(templates).templates().map_values(|t: Template| template_view(t))
                                == after_options_template_records(before, options_template_records_of(set), formatter.elements@),
                            Err(e) => r == Err::<(RecordSet, usize), IpfixError>(e)
                                && final(templates).templates() == old(templates).templates(),
                        }
                    } else {
                        &&& final(templates).templates() == old(templates).templates()
                        &&& !old(templates).templates().contains_key(id) ==> r == Err::<
                            (RecordSet, usize),
                            IpfixError,
                        >(IpfixError::MissingTemplate(id))
                        &&& old(templates).templates().contains_key(id) ==> {
                            let fields = old(templates).templates()[id].fields();
                            match parse_data_records(fields, content, 0) {
                                Ok(starts) => r matches Ok((set, e)) && e == end
                                    && set.records is Data
                                    && set.records.spec_set_id() == id && data_records_of(set).len() == starts.len() && forall|i: int|
                                    0 <= i < starts.len() ==> data_record_at(
                                        fields,
                                        content,
                                        #[trigger] starts[i],
                                        data_records_of(set)[i],
                                    ),
                                Err(e) => r == Err::<(RecordSet, usize), IpfixError>(e),
                            }
                        }
                    }
                },
            },
    {
        if buf.len() - pos < 4 {
            return Err(IpfixError::Truncated);
        }
        proof {
            lemma_radix_values();
            lemma_be_value_bound(buf@.subrange(pos as int, pos + 2 as int));
            lemma_be_value_bound(buf@.subrange(pos + 2 as int, pos + 4 as int));
        }
        let id = read_be(buf, pos, 2) as u16;
        let length = read_be(buf, pos + 2, 2) as usize;
        if length <= 4 {
            return Err(IpfixError::InvalidSetLength(length as u16));
        }
        if length > buf.len() - pos {
            return Err(IpfixError::Truncated);
        }
        if id <= 255 && id != TEMPLATE_SET_ID && id != OPTIONS_TEMPLATE_SET_ID {
            return Err(IpfixError::ReservedSetId(id));
        }
        let content = copy_range(buf, pos + 4, pos + length);
        let records = if id == TEMPLATE_SET_ID {
            let v = read_template_records(content.as_slice())?;
            templates.insert_template_records(v.as_slice(), formatter);
            Records::Template(v)
        } else if id == OPTIONS_TEMPLATE_SET_ID {
            let v = read_options_template_records(content.as_slice())?;
            templates.insert_options_template_records(v.as_slice(), formatter);
            Records::OptionsTemplate(v)
        } else {
            let data = match templates.get_template(id) {
                None => {
                    return Err(IpfixError::MissingTemplate(id));
                },
                Some(t) => read_data_records(t.field_specifiers(), content.as_slice())?,
            };
            Records::Data { set_id: id, data }
        };
        Ok((RecordSet { records }, pos + length))
    }

    /// Writes the set: its id, a length placeholder, the records, zero
    /// padding up to `alignment`, then the true length over the placeholder.
    #[verifier::rlimit(50)]
    pub fn write<S: TemplateStorage>(&self, templates: &S, alignment: u8, out: &mut Vec<u8>) -> (r: Result<
        (),
        IpfixError,
    >)
        ensures
            match set_bytes(*self, templates.templates(), alignment, old(out)@.len()) {
                Ok(b) => r is Ok && final(out)@ == old(out)@ + b,
                Err(e) => r == Err::<(), IpfixError>(e),
            },
            final(out)@.len() >= old(out)@.len(),
            final(out)@.subrange(0, old(out)@.len() as int) == old(out)@,
    {
        if let Records::Data { set_id, .. } = &self.records {
            if *set_id <= 255 {
                assert(out@.subrange(0, out@.len() as int) =~= out@);
                return Err(IpfixError::ReservedSetId(*set_id));
            }
        }
        let start = out.len();
        push_be(out, self.records.set_id() as u128, 2);
        push_be(out, 0, 2);
        let ghost head = out@;
        proof {
            lemma_be_bytes_len(self.records.spec_set_id() as nat, 2);
            lemma_be_bytes_len(0, 2);
            assert(head.len() == old(out)@.len() + 4);
        }
        let written_content = match &self.records {
            Records::Template(v) => write_template_records(v, out),
            Records::OptionsTemplate(v) => write_options_template_records(v, out),
            Records::Data { set_id, data } => write_data_records(*set_id, data, templates, out),
        };
        if let Err(e) = written_content {
            assert(out@.subrange(0, head.len() as int) == head);
            assert(out@.subrange(0, old(out)@.len() as int) =~= head.subrange(0, old(out)@.len() as int));
            assert(head.subrange(0, old(out)@.len() as int) =~= old(out)@);
            return Err(e);
        }
        let ghost c = written(out@, head.len());
        assert(out@ =~= head + c);
        let ghost mid = out@;
        let pad = pad_to(alignment, out);
        assert(out@.len() == old(out)@.len() + 4 + c.len() + pad);
        assert(pad == padding(old(out)@.len() + 4 + c.len(), alignment));
        let n = out.len() - start;
        if n > 0xFFFF {
            assert(out@.subrange(0, old(out)@.len() as int) =~= old(out)@);
            return Err(IpfixError::ValueOverflow);
        }
        let ghost before_patch = out@;
        patch_u16(out, start + 2, n as u16);
        proof {
            assert(out@.subrange(0, old(out)@.len() as int) =~= old(out)@);
            lemma_be_bytes_len(self.records.spec_set_id() as nat, 2);
            lemma_be_bytes_len(0, 2);
            let id_bytes = be_bytes(self.records.spec_set_id() as nat, 2);
            assert(before_patch =~= old(out)@ + id_bytes + be_bytes(0, 2) + c + zeros(pad as nat));
            assert(out@ =~= old(out)@ + (id_bytes + be_bytes(n as nat, 2) + c + zeros(pad as nat)));
        }
        Ok(())
    }
}

/// What the registry holds, as decoding sees it: for each id, whether an
/// options template announced it, and its resolved fields.
pub type TemplateViews = Map<u16, (bool, Seq<ExpandedFieldSpecifier>)>;

/// The registry after installing each parsed template record in turn.
pub open spec fn after_template_views(
    m: TemplateViews,
    s: Seq<(u16, Seq<crate::field::FieldSpecifier>)>,
    elements: Seq<InformationElement>,
) -> TemplateViews
    decreases s.len(),
{
    if s.len() == 0 {
        m
    } else {
        if s.last().0 <= 255 {
            after_template_views(m, s.drop_last(), elements)
        } else {
            after_template_views(m, s.drop_last(), elements).insert(
                s.last().0,
                (false, s.last().1.map_values(|f: crate::field::FieldSpecifier| expand(f, elements))),
            )
        }
    }
}

/// The registry after installing each parsed options template record in turn.
pub open spec fn after_options_template_views(
    m: TemplateViews,
    s: Seq<(u16, u16, Seq<crate::field::FieldSpecifier>)>,
    elements: Seq<InformationElement>,
) -> TemplateViews
    decreases s.len(),
{
    if s.len() == 0 {
        m
    } else {
        if s.last().0 <= 255 {
            after_options_template_views(m, s.drop_last(), elements)
        } else {
            after_options_template_views(m, s.drop_last(), elements).insert(
                s.last().0,
                (true, s.last().2.map_values(|f: crate::field::FieldSpecifier| expand(f, elements))),
            )
        }
    }
}

proof fn lemma_after_views(m: TemplateViews, v: Seq<TemplateRecord>, elements: Seq<InformationElement>)
    ensures
        after_template_records(m, v, elements) == after_template_views(
            m,
            v.map_values(|t: TemplateRecord| template_record_view(t)),
            elements,
        ),
    decreases v.len(),
{
    if v.len() > 0 {
        lemma_after_views(m, v.drop_last(), elements);
        assert(v.map_values(|t: TemplateRecord| template_record_view(t)).drop_last() =~= v.drop_last().map_values(
            |t: TemplateRecord| template_record_view(t),
        ));
    }
}

proof fn lemma_after_options_views(
    m: TemplateViews,
    v: Seq<OptionsTemplateRecord>,
    elements: Seq<InformationElement>,
)
    ensures
        after_options_template_records(m, v, elements) == after_options_template_views(
            m,
            v.map_values(|t: OptionsTemplateRecord| options_template_record_view(t)),
            elements,
        ),
    decreases v.len(),
{
    if v.len() > 0 {
        lemma_after_options_views(m, v.drop_last(), elements);
        assert(v.map_values(|t: OptionsTemplateRecord| options_template_record_view(t)).drop_last()
            =~= v.drop_last().map_values(
            |t: OptionsTemplateRecord| options_template_record_view(t),
        ));
    }
}

/// Reading the set at `pos` with registry `m`: where it ends and the
/// registry after it, or the error it gives.
pub open spec fn set_outcome(
    buf: Seq<u8>,
    pos: nat,
    m: TemplateViews,
    elements: Seq<InformationElement>,
) -> Result<(nat, TemplateViews), IpfixError> {
    match set_header_error(buf, pos) {
        Some(e) => Err(e),
        None => {
            let id = set_id_at(buf, pos);
            let end = pos + set_length_at(buf, pos);
            let content = buf.subrange(pos + 4 as int, end as int);
            if id == TEMPLATE_SET_ID {
                match parse_template_records(content, 0) {
                    Ok(s) => Ok((end, after_template_views(m, s, elements))),
                    Err(e) => Err(e),
                }
            } else if id == OPTIONS_TEMPLATE_SET_ID {
                match parse_options_template_records(content, 0) {
                    Ok(s) => Ok((end, after_options_template_views(m, s, elements))),
                    Err(e) => Err(e),
                }
            } else if !m.contains_key(id) {
                Err(IpfixError::MissingTemplate(id))
            } else {
                match parse_data_records(m[id].1, content, 0) {
                    Ok(_) => Ok((end, m)),
                    Err(e) => Err(e),
                }
            }
        },
    }
}

/// `set` holds what the set at `pos`, read with registry `m`, holds.
pub open spec fn set_holds(
    buf: Seq<u8>,
    pos: nat,
    m: TemplateViews,
    elements: Seq<InformationElement>,
    set: RecordSet,
) -> bool {
    let id = set_id_at(buf, pos);
    let end = pos + set_length_at(buf, pos);
    let content = buf.subrange(pos + 4 as int, end as int);
    if id == TEMPLATE_SET_ID {
        &&& set.records is Template
        &&& parse_template_records(content, 0) == Ok::<_, IpfixError>(
            template_records_of(set).map_values(|t: TemplateRecord| template_record_view(t)),
        )
    } else if id == OPTIONS_TEMPLATE_SET_ID {
        &&& set.records is OptionsTemplate
        &&& parse_options_template_records(content, 0) == Ok::<_, IpfixError>(
            options_template_records_of(set).map_values(
                |t: OptionsTemplateRecord| options_template_record_view(t),
            ),
        )
    } else {
        &&& set.records is Data
        &&& set.records.spec_set_id() == id
        &&& parse_data_records(m[id].1, content, 0) matches Ok(starts)
        &&& data_records_of(set).len() == starts.len()
        &&& forall|i: int|
            0 <= i < starts.len() ==> data_record_at(
                m[id].1,
                content,
                #[trigger] starts[i],
                data_records_of(set)[i],
            )
    }
}

/// Reading sets one after another from `pos` to the end of `buf`, starting
/// with registry `m`: the registry after the last, or the first error.
pub open spec fn sets_outcome(
    buf: Seq<u8>,
    pos: nat,
    m: TemplateViews,
    elements: Seq<InformationElement>,
) -> Result<TemplateViews, IpfixError>
    decreases buf.len() - pos,
{
    if pos >= buf.len() {
        Ok(m)
    } else {
        match set_outcome(buf, pos, m, elements) {
            Err(e) => Err(e),
            Ok((end, m2)) => if end <= pos {
                Err(IpfixError::Truncated)
            } else {
                sets_outcome(buf, end, m2, elements)
            },
        }
    }
}

/// `sets` are the sets read one after another from `pos` to the end of
/// `buf`, starting with registry `m`.
pub open spec fn sets_hold(
    buf: Seq<u8>,
    pos: nat,
    m: TemplateViews,
    elements: Seq<InformationElement>,
    sets: Seq<RecordSet>,
) -> bool
    decreases buf.len() - pos,
{
    if pos >= buf.len() {
        sets.len() == 0
    } else {
        match set_outcome(buf, pos, m, elements) {
            Err(_) => false,
            Ok((end, m2)) => {
                &&& end > pos
                &&& sets.len() > 0
                &&& set_holds(buf, pos, m, elements, sets[0])
                &&& sets_hold(buf, end, m2, elements, sets.drop_first())
            },
        }
    }
}

/// A data set read before any template for its id fails with a missing
/// template, whatever sets follow it.
pub proof fn lemma_data_set_needs_template(
    buf: Seq<u8>,
    pos: nat,
    m: TemplateViews,
    elements: Seq<InformationElement>,
)
    requires
        pos < buf.len(),
        set_header_error(buf, pos) is None,
        set_id_at(buf, pos) > 255,
        !m.contains_key(set_id_at(buf, pos)),
    ensures
        sets_outcome(buf, pos, m, elements) == Err::<TemplateViews, IpfixError>(
            IpfixError::MissingTemplate(set_id_at(buf, pos)),
        ),
{
}

/// From `p`, `n` sets follow one another by their length fields, each at
/// least a header long, and the last ends at `end`.
pub open spec fn sets_tile(w: Seq<u8>, p: nat, end: nat, n: nat) -> bool
    decreases n,
{
    if n == 0 {
        p == end
    } else {
        &&& p + 4 <= end
        &&& end <= w.len()
        &&& set_length_at(w, p) >= 4
        &&& sets_tile(w, p + set_length_at(w, p), end, (n - 1) as nat)
    }
}

proof fn lemma_tile_append(w: Seq<u8>, p: nat, q: nat, n: nat)
    requires
        sets_tile(w, p, q, n),
        q + 4 <= w.len(),
        set_length_at(w, q) >= 4,
        q + set_length_at(w, q) <= w.len(),
    ensures
        sets_tile(w, p, q + set_length_at(w, q), n + 1),
    decreases n,
{
    if n > 0 {
        lemma_tile_append(w, p + set_length_at(w, p), q, (n - 1) as nat);
    } else {
        reveal_with_fuel(sets_tile, 2);
    }
}

proof fn lemma_tile_extend(w: Seq<u8>, x: Seq<u8>, p: nat, q: nat, n: nat)
    requires
        sets_tile(w, p, q, n),
    ensures
        sets_tile(w + x, p, q, n),
    decreases n,
{
    if n > 0 {
        assert((w + x).subrange(p + 2 as int, p + 4 as int) =~= w.subrange(p + 2 as int, p + 4 as int));
        lemma_tile_extend(w, x, p + set_length_at(w, p), q, (n - 1) as nat);
    }
}

/// An IPFIX message: a 16-byte header, then sets to the end of the input.
#[derive(Clone, Debug, PartialEq)]
pub struct Message {
    pub export_time: u32,
    pub sequence_number: u32,
    pub observation_domain_id: u32,
    pub sets: Vec<RecordSet>,
}

/// The version number that starts every message.
pub const VERSION: u16 = 10;

/// The length of a message header.
pub const HEADER_LENGTH: usize = 16;

/// The bytes of `sets` written one after another from where the buffer
/// holds `at` bytes, or why they cannot be written.
pub open spec fn sets_bytes(
    sets: Seq<RecordSet>,
    templates: Map<u16, Template>,
    alignment: u8,
    at: nat,
) -> Result<Seq<u8>, IpfixError>
    decreases sets.len(),
{
    if sets.len() == 0 {
        Ok(Seq::empty())
    } else {
        match sets_bytes(sets.drop_last(), templates, alignment, at) {
            Err(e) => Err(e),
            Ok(b) => match set_bytes(sets.last(), templates, alignment, at + b.len()) {
                Err(e) => Err(e),
                Ok(x) => Ok(b + x),
            },
        }
    }
}

/// The message header for a message of `n` bytes.
pub open spec fn header_bytes(m: Message, n: nat) -> Seq<u8> {
    be_bytes(VERSION as nat, 2) + be_bytes(n, 2) + be_bytes(m.export_time as nat, 4) + be_bytes(
        m.sequence_number as nat,
        4,
    ) + be_bytes(m.observation_domain_id as nat, 4)
}

/// The bytes of message `m` written where the buffer holds `at` bytes, or
/// why it cannot be written.
pub open spec fn message_bytes(
    m: Message,
    templates: Map<u16, Template>,
    alignment: u8,
    at: nat,
) -> Result<Seq<u8>, IpfixError> {
    match sets_bytes(m.sets@, templates, alignment, at + 16) {
        Err(e) => Err(e),
        Ok(b) => if 16 + b.len() > 0xFFFF {
            Err(IpfixError::ValueOverflow)
        } else {
            Ok(header_bytes(m, 16 + b.len()) + b)
        },
    }
}

proof fn lemma_sets_bytes_fail(
    sets: Seq<RecordSet>,
    templates: Map<u16, Template>,
    alignment: u8,
    at: nat,
    k: nat,
    n: nat,
)
    requires
        k <= n <= sets.len(),
        sets_bytes(sets.take(k as int), templates, alignment, at) is Err,
    ensures
        sets_bytes(sets.take(n as int), templates, alignment, at) == sets_bytes(
            sets.take(k as int),
            templates,
            alignment,
            at,
        ),
    decreases n - k,
{
    if k < n {
        lemma_sets_bytes_fail(sets, templates, alignment, at, k, (n - 1) as nat);
        assert(sets.take(n as int).drop_last() =~= sets.take(n - 1 as int));
    }
}

/// A written set starts with its own length, at least a header long.
proof fn lemma_set_bytes_length(set: RecordSet, templates: Map<u16, Template>, alignment: u8, at: nat)
    requires
        set_bytes(set, templates, alignment, at) is Ok,
    ensures
        ({
            let x = set_bytes(set, templates, alignment, at)->Ok_0;
            &&& x.len() >= 4
            &&& set_length_at(x, 0) == x.len()
        }),
{
    let c = set_content_bytes(set.records, templates)->Ok_0;
    let pad = padding(at + 4 + c.len(), alignment);
    let n = 4 + c.len() + pad;
    let x = set_bytes(set, templates, alignment, at)->Ok_0;
    lemma_be_bytes_len(set.records.spec_set_id() as nat, 2);
    lemma_be_bytes_len(n, 2);
    lemma_be_round_trip(n, 2);
    lemma_radix_values();
    vstd::arithmetic::div_mod::lemma_small_mod(n, 0x1_0000);
    assert(x.subrange(2, 4) =~= be_bytes(n, 2));
}

/// The sets written one after another tile the bytes after any prefix.
proof fn lemma_sets_tile(
    sets: Seq<RecordSet>,
    templates: Map<u16, Template>,
    alignment: u8,
    at: nat,
    pre: Seq<u8>,
)
    requires
        sets_bytes(sets, templates, alignment, at) is Ok,
    ensures
        ({
            let w = pre + sets_bytes(sets, templates, alignment, at)->Ok_0;
            sets_tile(w, pre.len(), w.len(), sets.len())
        }),
    decreases sets.len(),
{
    if sets.len() > 0 {
        let b = sets_bytes(sets.drop_last(), templates, alignment, at)->Ok_0;
        let x = set_bytes(sets.last(), templates, alignment, at + b.len())->Ok_0;
        lemma_sets_tile(sets.drop_last(), templates, alignment, at, pre);
        lemma_set_bytes_length(sets.last(), templates, alignment, at + b.len());
        let w0 = pre + b;
        lemma_tile_extend(w0, x, pre.len(), w0.len(), sets.drop_last().len());
        let w = w0 + x;
        assert(w =~= pre + (b + x));
        assert(w.subrange(w0.len() + 2 as int, w0.len() + 4 as int) =~= x.subrange(2, 4));
        lemma_tile_append(w, pre.len(), w0.len(), sets.drop_last().len());
    }
}

/// A written message's length field holds the number of bytes written, and
/// its sets, read by their own length fields from the end of the header,
/// run exactly to the end.
pub proof fn lemma_message_length(m: Message, templates: Map<u16, Template>, alignment: u8, at: nat)
    requires
        message_bytes(m, templates, alignment, at) is Ok,
    ensures
        ({
            let w = message_bytes(m, templates, alignment, at)->Ok_0;
            &&& w.len() >= 16
            &&& be_value(w.subrange(2, 4)) == w.len()
            &&& sets_tile(w, 16, w.len(), m.sets@.len())
        }),
{
    let b = sets_bytes(m.sets@, templates, alignment, at + 16)->Ok_0;
    let n = 16 + b.len();
    let h = header_bytes(m, n);
    lemma_be_bytes_len(VERSION as nat, 2);
    lemma_be_bytes_len(n, 2);
    lemma_be_bytes_len(m.export_time as nat, 4);
    lemma_be_bytes_len(m.sequence_number as nat, 4);
    lemma_be_bytes_len(m.observation_domain_id as nat, 4);
    lemma_be_round_trip(n, 2);
    lemma_radix_values();
    vstd::arithmetic::div_mod::lemma_small_mod(n, 0x1_0000);
    let w = h + b;
    assert(w.subrange(2, 4) =~= be_bytes(n, 2));
    lemma_sets_tile(m.sets@, templates, alignment, at + 16, h);
}

/// The template records of every template set, in order.
pub open spec fn all_template_records(sets: Seq<RecordSet>) -> Seq<TemplateRecord>
    decreases sets.len(),
{
    if sets.len() == 0 {
        Seq::empty()
    } else {
        all_template_records(sets.drop_last()) + template_records_of(sets.last())
    }
}

/// The options template records of every options template set, in order.
pub open spec fn all_options_template_records(sets: Seq<RecordSet>) -> Seq<OptionsTemplateRecord>
    decreases sets.len(),
{
    if sets.len() == 0 {
        Seq::empty()
    } else {
        all_options_template_records(sets.drop_last()) + options_template_records_of(sets.last())
    }
}

/// The data records of every data set, in order.
pub open spec fn all_data_records(sets: Seq<RecordSet>) -> Seq<DataRecord>
    decreases sets.len(),
{
    if sets.len() == 0 {
        Seq::empty()
    } else {
        all_data_records(sets.drop_last()) + data_records_of(sets.last())
    }
}

/// References that point, in order, at the items of `prev` and then at
/// those of `add` point at the items of their concatenation.
proof fn lemma_refs_appended<T>(old_r: Seq<&T>, r: Seq<&T>, prev: Seq<T>, add: Seq<T>)
    requires
        old_r.len() == prev.len(),
        forall|j: int| 0 <= j < old_r.len() ==> *old_r[j] == prev[j],
        r.len() == old_r.len() + add.len(),
        forall|j: int| 0 <= j < old_r.len() ==> r[j] == old_r[j],
        forall|j: int| 0 <= j < add.len() ==> *r[old_r.len() + j] == add[j],
    ensures
        forall|j: int| 0 <= j < r.len() ==> *r[j] == (prev + add)[j],
{
    assert forall|j: int| 0 <= j < r.len() implies *r[j] == (prev + add)[j] by {
        if j >= old_r.len() {
            let jj = j - old_r.len();
            assert(r[old_r.len() + jj] == r[j]);
        } else {
            assert(r[j] == old_r[j]);
        }
    }
}

impl Message {
    /// Writes the message: the header with a length placeholder, each set,
    /// then the total length over the placeholder. Sets are padded to
    /// `alignment`.
    #[verifier::rlimit(50)]
    pub fn write<S: TemplateStorage>(&self, templates: &S, alignment: u8, out: &mut Vec<u8>) -> (r: Result<
        (),
        IpfixError,
    >)
        ensures
            match message_bytes(*self, templates.templates(), alignment, old(out)@.len()) {
                Ok(b) => r is Ok && final(out)@ == old(out)@ + b,
                Err(e) => r == Err::<(), IpfixError>(e),
            },
            final(out)@.len() >= old(out)@.len(),
            final(out)@.subrange(0, old(out)@.len() as int) == old(out)@,
    {
        let start = out.len();
        push_be(out, VERSION as u128, 2);
        push_be(out, 0, 2);
        push_be(out, self.export_time as u128, 4);
        push_be(out, self.sequence_number as u128, 4);
        push_be(out, self.observation_domain_id as u128, 4);
        let ghost head = out@;
        proof {
            lemma_be_bytes_len(VERSION as nat, 2);
            lemma_be_bytes_len(0, 2);
            lemma_be_bytes_len(self.export_time as nat, 4);
            lemma_be_bytes_len(self.sequence_number as nat, 4);
            lemma_be_bytes_len(self.observation_domain_id as nat, 4);
            assert(head.len() == old(out)@.len() + 16);
        }
        let ghost at: nat = old(out)@.len() + 16;
        assert(head.subrange(0, old(out)@.len() as int) =~= old(out)@);
        let mut i: usize = 0;
        assert(self.sets@.take(0) =~= Seq::<RecordSet>::empty());
        assert(out@ =~= head + Seq::<u8>::empty());
        while i < self.sets.len()
            invariant
                i <= self.sets@.len(),
                head.len() == at,
                at == old(out)@.len() + 16,
                head.subrange(0, old(out)@.len() as int) == old(out)@,
                sets_bytes(self.sets@.take(i as int), templates.templates(), alignment, at) matches Ok(
                    b,
                ) && out@ == head + b,
            decreases self.sets@.len() - i,
        {
            let ghost pre = self.sets@.take(i as int);
            let ghost b = sets_bytes(pre, templates.templates(), alignment, at)->Ok_0;
            assert(self.sets@.take(i + 1 as int).drop_last() =~= pre);
            let ghost before = out@;
            match self.sets[i].write(templates, alignment, out) {
                Ok(()) => {
                    assert(out@ =~= head + (b + written(out@, before.len())));
                },
                Err(e) => {
                    proof {
                        assert(before.len() == at + b.len());
                        assert(sets_bytes(self.sets@.take(i + 1 as int), templates.templates(), alignment, at)
                            == Err::<Seq<u8>, IpfixError>(e));
                        lemma_sets_bytes_fail(
                            self.sets@,
                            templates.templates(),
                            alignment,
                            at,
                            (i + 1) as nat,
                            self.sets@.len(),
                        );
                        assert(self.sets@.take(self.sets@.len() as int) =~= self.sets@);
                        assert(sets_bytes(self.sets@, templates.templates(), alignment, at)
                            == Err::<Seq<u8>, IpfixError>(e));
                        assert(message_bytes(*self, templates.templates(), alignment, old(out)@.len())
                            == Err::<Seq<u8>, IpfixError>(e));
                        assert(out@.subrange(0, before.len() as int) == before);
                        assert(before.subrange(0, old(out)@.len() as int) =~= head.subrange(0, old(out)@.len() as int));
                        assert(out@.subrange(0, old(out)@.len() as int) =~= before.subrange(0, old(out)@.len() as int));
                    }
                    return Err(e);
                },
            }
            i = i + 1;
        }
        assert(self.sets@.take(i as int) =~= self.sets@);
        let n = out.len() - start;
        if n > 0xFFFF {
            assert(out@.subrange(0, old(out)@.len() as int) =~= old(out)@);
            return Err(IpfixError::ValueOverflow);
        }
        let ghost before_patch = out@;
        patch_u16(out, start + 2, n as u16);
        proof {
            assert(out@.subrange(0, old(out)@.len() as int) =~= old(out)@);
            let b = sets_bytes(self.sets@, templates.templates(), alignment, at)->Ok_0;
            assert(before_patch =~= old(out)@ + be_bytes(VERSION as nat, 2) + be_bytes(0, 2)
                + be_bytes(self.export_time as nat, 4) + be_bytes(self.sequence_number as nat, 4)
                + be_bytes(self.observation_domain_id as nat, 4) + b);
            assert(out@ =~= old(out)@ + (header_bytes(*self, n as nat) + b));
        }
        Ok(())
    }

    /// Reads a message: the header, then sets until the end of `buf`.
    /// Template sets update `templates` as they are read, so a data set can
    /// use a template announced earlier in the same message, and only such.
    pub fn read<S: TemplateStorage>(buf: &[u8], templates: &mut S, formatter: &Formatter) -> (r: Result<
        Message,
        IpfixError,
    >)
        ensures
            buf@.len() < 16 ==> r == Err::<Message, IpfixError>(IpfixError::Truncated)
                && final(templates).templates() == old(templates).templates(),
            buf@.len() >= 16 && be_value(buf@.subrange(0, 2)) != VERSION ==> r == Err::<
                Message,
                IpfixError,
            >(IpfixError::BadVersion(be_value(buf@.subrange(0, 2)) as u16))
                && final(templates).templates() == old(templates).templates(),
            buf@.len() >= 16 && be_value(buf@.subrange(0, 2)) == VERSION ==> {
                let before = old(templates).templates().map_values(|t: Template| template_view(t));
                match sets_outcome(buf@, 16, before, formatter.elements@) {
                    Ok(after) => r matches Ok(m) && m.export_time == be_value(buf@.subrange(4, 8))
                        && m.sequence_number == be_value(buf@.subrange(8, 12))
                        && m.observation_domain_id == be_value(buf@.subrange(12, 16))
                        && sets_hold(buf@, 16, before, formatter.elements@, m.sets@)
                        && final(templates).templates().map_values(|t: Template| template_view(t))
                        == after,
                    Err(e) => r == Err::<Message, IpfixError>(e),
                }
            },
            r matches Ok(m) ==> sets_tile(buf@, 16, buf@.len(), m.sets@.len()),
    {
        if buf.len() < HEADER_LENGTH {
            return Err(IpfixError::Truncated);
        }
        proof {
            lemma_radix_values();
            lemma_be_value_bound(buf@.subrange(0, 2));
            lemma_be_value_bound(buf@.subrange(4, 8));
            lemma_be_value_bound(buf@.subrange(8, 12));
            lemma_be_value_bound(buf@.subrange(12, 16));
        }
        let version = read_be(buf, 0, 2) as u16;
        if version != VERSION {
            return Err(IpfixError::BadVersion(version));
        }
        let export_time = read_be(buf, 4, 4) as u32;
        let sequence_number = read_be(buf, 8, 4) as u32;
        let observation_domain_id = read_be(buf, 12, 4) as u32;
        let mut sets: Vec<RecordSet> = Vec::new();
        let mut pos: usize = HEADER_LENGTH;
        let ghost el = formatter.elements@;
        let ghost m0 = templates.templates().map_values(|t: Template| template_view(t));
        while pos < buf.len()
            invariant
                16 <= pos <= buf.len(),
                buf@.len() >= 16,
                el == formatter.elements@,
                m0 == old(templates).templates().map_values(|t: Template| template_view(t)),
                be_value(buf@.subrange(0, 2)) == VERSION,
                export_time == be_value(buf@.subrange(4, 8)),
                sequence_number == be_value(buf@.subrange(8, 12)),
                observation_domain_id == be_value(buf@.subrange(12, 16)),
                sets_tile(buf@, 16, pos as nat, sets@.len()),
                sets_outcome(buf@, 16, m0, el) == sets_outcome(
                    buf@,
                    pos as nat,
                    templates.templates().map_values(|t: Template| template_view(t)),
                    el,
                ),
                forall|q: Seq<RecordSet>|
                    sets_hold(
                        buf@,
                        pos as nat,
                        templates.templates().map_values(|t: Template| template_view(t)),
                        el,
                        q,
                    ) ==> #[trigger] sets_hold(buf@, 16, m0, el, sets@ + q),
            decreases buf@.len() - pos,
        {
            let ghost mc = templates.templates().map_values(|t: Template| template_view(t));
            let ghost told = templates.templates();
            let res = RecordSet::read(buf, pos, templates, formatter);
            let ghost mn = templates.templates().map_values(|t: Template| template_view(t));
            proof {
                assert(told.map_values(|t: Template| template_view(t)) == mc);
                let id = set_id_at(buf@, pos as nat);
                if set_header_error(buf@, pos as nat) is None {
                    let end = pos + set_length_at(buf@, pos as nat);
                    if id == TEMPLATE_SET_ID {
                        if res is Ok {
                            lemma_after_views(mc, template_records_of((res->Ok_0).0), el);
                        }
                    } else if id == OPTIONS_TEMPLATE_SET_ID {
                        if res is Ok {
                            lemma_after_options_views(mc, options_template_records_of((res->Ok_0).0), el);
                        }
                    } else if told.contains_key(id) {
                        assert(mc[id].1 == told[id].fields());
                    }
                }
            }
            let (set, e) = match res {
                Ok(x) => x,
                Err(err) => {
                    proof {
                        assert(set_outcome(buf@, pos as nat, mc, el) == Err::<(nat, TemplateViews), IpfixError>(err));
                        assert(sets_outcome(buf@, pos as nat, mc, el) == Err::<TemplateViews, IpfixError>(err));
                    }
                    return Err(err);
                },
            };
            proof {
                assert(set_outcome(buf@, pos as nat, mc, el) == Ok::<_, IpfixError>((e as nat, mn)));
                assert(set_holds(buf@, pos as nat, mc, el, set));
                lemma_tile_append(buf@, 16, pos as nat, sets@.len());
                assert forall|q: Seq<RecordSet>|
                    sets_hold(buf@, e as nat, mn, el, q) implies #[trigger] sets_hold(
                    buf@,
                    16,
                    m0,
                    el,
                    sets@.push(set) + q,
                ) by {
                    let q2 = seq![set] + q;
                    assert(q2[0] == set);
                    assert(q2.drop_first() =~= q);
                    assert(sets_hold(buf@, pos as nat, mc, el, q2));
                    assert(sets@ + q2 =~= sets@.push(set) + q);
                }
            }
            sets.push(set);
            pos = e;
        }
        proof {
            assert(sets_hold(
                buf@,
                pos as nat,
                templates.templates().map_values(|t: Template| template_view(t)),
                el,
                Seq::empty(),
            ));
            assert(sets@ + Seq::<RecordSet>::empty() =~= sets@);
        }
        Ok(Message { export_time, sequence_number, observation_domain_id, sets })
    }

    /// The template records of all template sets, in order.
    pub fn iter_template_records(&self) -> (r: Vec<&TemplateRecord>)
        ensures
            r@.len() == all_template_records(self.sets@).len(),
            forall|i: int| 0 <= i < r@.len() ==> *r@[i] == all_template_records(self.sets@)[i],
    {
        let mut r: Vec<&TemplateRecord> = Vec::new();
        let mut i: usize = 0;
        while i < self.sets.len()
            invariant
                i <= self.sets@.len(),
                r@.len() == all_template_records(self.sets@.take(i as int)).len(),
                forall|j: int| 0 <= j < r@.len() ==> *r@[j] == all_template_records(self.sets@.take(i as int))[j],
            decreases self.sets@.len() - i,
        {
            assert(self.sets@.take(i + 1 as int).drop_last() =~= self.sets@.take(i as int));
            let ghost old_r = r@;
            if let Records::Template(v) = &self.sets[i].records {
                let mut k: usize = 0;
                while k < v.len()
                    invariant
                        k <= v@.len(),
                        i < self.sets@.len(),
                        template_records_of(self.sets@[i as int]) == v@,
                        old_r.len() == all_template_records(self.sets@.take(i as int)).len(),
                        forall|j: int| 0 <= j < old_r.len() ==> *old_r[j] == all_template_records(self.sets@.take(i as int))[j],
                        r@.len() == old_r.len() + k,
                        forall|j: int| 0 <= j < old_r.len() ==> r@[j] == old_r[j],
                        forall|j: int| 0 <= j < k ==> *r@[old_r.len() + j] == v@[j],
                    decreases v@.len() - k,
                {
                    r.push(&v[k]);
                    k = k + 1;
                }
            }
            proof {
                let s0 = self.sets@.take(i as int);
                let s1 = self.sets@.take(i + 1 as int);
                let add = template_records_of(self.sets@[i as int]);
                assert(s1.last() == self.sets@[i as int]);
                assert(all_template_records(s1) == all_template_records(s0) + add);
                lemma_refs_appended(old_r, r@, all_template_records(s0), add);
            }
            i = i + 1;
        }
        assert(self.sets@.take(i as int) =~= self.sets@);
        r
    }

    /// The options template records of all options template sets, in order.
    pub fn iter_options_template_records(&self) -> (r: Vec<&OptionsTemplateRecord>)
        ensures
            r@.len() == all_options_template_records(self.sets@).len(),
            forall|i: int| 0 <= i < r@.len() ==> *r@[i] == all_options_template_records(self.sets@)[i],
    {
        let mut r: Vec<&OptionsTemplateRecord> = Vec::new();
        let mut i: usize = 0;
        while i < self.sets.len()
            invariant
                i <= self.sets@.len(),
                r@.len() == all_options_template_records(self.sets@.take(i as int)).len(),
                forall|j: int| 0 <= j < r@.len() ==> *r@[j] == all_options_template_records(self.sets@.take(i as int))[j],
            decreases self.sets@.len() - i,
        {
            assert(self.sets@.take(i + 1 as int).drop_last() =~= self.sets@.take(i as int));
            let ghost old_r = r@;
            if let Records::OptionsTemplate(v) = &self.sets[i].records {
                let mut k: usize = 0;
                while k < v.len()
                    invariant
                        k <= v@.len(),
                        i < self.sets@.len(),
                        options_template_records_of(self.sets@[i as int]) == v@,
                        old_r.len() == all_options_template_records(self.sets@.take(i as int)).len(),
                        forall|j: int| 0 <= j < old_r.len() ==> *old_r[j] == all_options_template_records(self.sets@.take(i as int))[j],
                        r@.len() == old_r.len() + k,
                        forall|j: int| 0 <= j < old_r.len() ==> r@[j] == old_r[j],
                        forall|j: int| 0 <= j < k ==> *r@[old_r.len() + j] == v@[j],
                    decreases v@.len() - k,
                {
                    r.push(&v[k]);
                    k = k + 1;
                }
            }
            proof {
                let s0 = self.sets@.take(i as int);
                let s1 = self.sets@.take(i + 1 as int);
                let add = options_template_records_of(self.sets@[i as int]);
                assert(s1.last() == self.sets@[i as int]);
                assert(all_options_template_records(s1) == all_options_template_records(s0) + add);
                lemma_refs_appended(old_r, r@, all_options_template_records(s0), add);
            }
            i = i + 1;
        }
        assert(self.sets@.take(i as int) =~= self.sets@);
        r
    }

    /// The data records of all data sets, in order.
    pub fn iter_data_records(&self) -> (r: Vec<&DataRecord>)
        ensures
            r@.len() == all_data_records(self.sets@).len(),
            forall|i: int| 0 <= i < r@.len() ==> *r@[i] == all_data_records(self.sets@)[i],
    {
        let mut r: Vec<&DataRecord> = Vec::new();
        let mut i: usize = 0;
        while i < self.sets.len()
            invariant
                i <= self.sets@.len(),
                r@.len() == all_data_records(self.sets@.take(i as int)).len(),
                forall|j: int| 0 <= j < r@.len() ==> *r@[j] == all_data_records(self.sets@.take(i as int))[j],
            decreases self.sets@.len() - i,
        {
            assert(self.sets@.take(i + 1 as int).drop_last() =~= self.sets@.take(i as int));
            let ghost old_r = r@;
            if let Records::Data { data, .. } = &self.sets[i].records {
                let mut k: usize = 0;
                while k < data.len()
                    invariant
                        k <= data@.len(),
                        i < self.sets@.len(),
                        data_records_of(self.sets@[i as int]) == data@,
                        old_r.len() == all_data_records(self.sets@.take(i as int)).len(),
                        forall|j: int| 0 <= j < old_r.len() ==> *old_r[j] == all_data_records(self.sets@.take(i as int))[j],
                        r@.len() == old_r.len() + k,
                        forall|j: int| 0 <= j < old_r.len() ==> r@[j] == old_r[j],
                        forall|j: int| 0 <= j < k ==> *r@[old_r.len() + j] == data@[j],
                    decreases data@.len() - k,
                {
                    r.push(&data[k]);
                    k = k + 1;
                }
            }
            proof {
                let s0 = self.sets@.take(i as int);
                let s1 = self.sets@.take(i + 1 as int);
                let add = data_records_of(self.sets@[i as int]);
                assert(s1.last() == self.sets@[i as int]);
                assert(all_data_records(s1) == all_data_records(s0) + add);
                lemma_refs_appended(old_r, r@, all_data_records(s0), add);
            }
            i = i + 1;
        }
        assert(self.sets@.take(i as int) =~= self.sets@);
        r
    }
}

} // verus!
