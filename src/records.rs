//! Template, options template and data records, and their field specifiers.
use crate::bytes::{be_bytes, be_value, lemma_be_value_bound, lemma_radix_values, push_be, read_be};
use crate::error::IpfixError;
use crate::field::FieldSpecifier;
use vstd::prelude::*;

verus! {

/// A template record: the fields of the data records that carry its id.
#[derive(Clone, Debug, PartialEq)]
pub struct TemplateRecord {
    pub template_id: u16,
    pub field_specifiers: Vec<FieldSpecifier>,
}

/// An options template record. The scope field count is carried but its
/// scope fields are decoded as ordinary fields.
#[derive(Clone, Debug, PartialEq)]
pub struct OptionsTemplateRecord {
    pub template_id: u16,
    pub scope_field_count: u16,
    pub field_specifiers: Vec<FieldSpecifier>,
}

/// Bit 15 of an element id's slot: an enterprise number follows.
pub const ENTERPRISE_BIT: u16 = 0x8000;

/// The wire form of a field specifier.
pub open spec fn field_spec_bytes(f: FieldSpecifier) -> Seq<u8> {
    let raw: u16 = if f.enterprise_number is Some {
        f.information_element_identifier | ENTERPRISE_BIT
    } else {
        f.information_element_identifier
    };
    let head = be_bytes(raw as nat, 2) + be_bytes(f.field_length as nat, 2);
    match f.enterprise_number {
        Some(e) => head + be_bytes(e as nat, 4),
        None => head,
    }
}

/// The wire form of a sequence of field specifiers.
pub open spec fn field_specs_bytes(s: Seq<FieldSpecifier>) -> Seq<u8>
    decreases s.len(),
{
    if s.len() == 0 {
        Seq::empty()
    } else {
        field_specs_bytes(s.drop_last()) + field_spec_bytes(s.last())
    }
}

/// The field specifier at `pos` and the position after it; `None` when the
/// input ends first.
pub open spec fn parse_field_spec(buf: Seq<u8>, pos: nat) -> Option<(FieldSpecifier, nat)> {
    if pos + 4 > buf.len() {
        None
    } else {
        let raw = be_value(buf.subrange(pos as int, pos + 2 as int)) as u16;
        let length = be_value(buf.subrange(pos + 2 as int, pos + 4 as int)) as u16;
        let id = raw & 0x7FFF;
        if raw & ENTERPRISE_BIT != 0 {
            if pos + 8 > buf.len() {
                None
            } else {
                let e = be_value(buf.subrange(pos + 4 as int, pos + 8 as int)) as u32;
                Some(
                    (
                        FieldSpecifier {
                            information_element_identifier: id,
                            field_length: length,
                            enterprise_number: Some(e),
                        },
                        pos + 8,
                    ),
                )
            }
        } else {
            Some(
                (
                    FieldSpecifier {
                        information_element_identifier: id,
                        field_length: length,
                        enterprise_number: None,
                    },
                    pos + 4,
                ),
            )
        }
    }
}

/// `count` field specifiers one after another from `pos`.
pub open spec fn parse_field_specs(buf: Seq<u8>, pos: nat, count: nat) -> Option<
    (Seq<FieldSpecifier>, nat),
>
    decreases count,
{
    if count == 0 {
        Some((Seq::empty(), pos))
    } else {
        match parse_field_specs(buf, pos, (count - 1) as nat) {
            None => None,
            Some((s, p)) => match parse_field_spec(buf, p) {
                None => None,
                Some((f, q)) => Some((s.push(f), q)),
            },
        }
    }
}

/// Reads the field specifier at `pos`.
pub fn read_field_spec(buf: &[u8], pos: usize) -> (r: Result<(FieldSpecifier, usize), IpfixError>)
    requires
        pos <= buf.len(),
    ensures
        match parse_field_spec(buf@, pos as nat) {
            Some((f, end)) => r == Ok::<(FieldSpecifier, usize), IpfixError>((f, end as usize))
                && end <= buf.len(),
            None => r == Err::<(FieldSpecifier, usize), IpfixError>(IpfixError::Truncated),
        },
{
    if buf.len() - pos < 4 {
        return Err(IpfixError::Truncated);
    }
    proof {
        lemma_radix_values();
        lemma_be_value_bound(buf@.subrange(pos as int, pos + 2 as int));
        lemma_be_value_bound(buf@.subrange(pos + 2 as int, pos + 4 as int));
    }
    let raw = read_be(buf, pos, 2) as u16;
    let length = read_be(buf, pos + 2, 2) as u16;
    let id = raw & 0x7FFF;
    if raw & ENTERPRISE_BIT != 0 {
        if buf.len() - pos < 8 {
            return Err(IpfixError::Truncated);
        }
        proof {
            lemma_be_value_bound(buf@.subrange(pos + 4 as int, pos + 8 as int));
        }
        let e = read_be(buf, pos + 4, 4) as u32;
        Ok(
            (
                FieldSpecifier {
                    information_element_identifier: id,
                    field_length: length,
                    enterprise_number: Some(e),
                },
                pos + 8,
            ),
        )
    } else {
        Ok(
            (
                FieldSpecifier {
                    information_element_identifier: id,
                    field_length: length,
                    enterprise_number: None,
                },
                pos + 4,
            ),
        )
    }
}

/// Writes a field specifier; bit 15 of its id slot says whether an
/// enterprise number follows.
pub fn write_field_spec(f: &FieldSpecifier, out: &mut Vec<u8>)
    ensures
        final(out)@ == old(out)@ + field_spec_bytes(*f),
{
    let raw: u16 = if f.enterprise_number.is_some() {
        f.information_element_identifier | ENTERPRISE_BIT
    } else {
        f.information_element_identifier
    };
    push_be(out, raw as u128, 2);
    push_be(out, f.field_length as u128, 2);
    match f.enterprise_number {
        Some(e) => {
            push_be(out, e as u128, 4);
        },
        None => {},
    }
    proof {
        let head = be_bytes(raw as nat, 2) + be_bytes(f.field_length as nat, 2);
        match f.enterprise_number {
            Some(e) => {
                assert(out@ =~= old(out)@ + (head + be_bytes(e as nat, 4)));
            },
            None => {
                assert(out@ =~= old(out)@ + head);
            },
        }
    }
}

proof fn lemma_specs_stay_none(buf: Seq<u8>, pos: nat, k: nat, n: nat)
    requires
        k <= n,
        parse_field_specs(buf, pos, k) is None,
    ensures
        parse_field_specs(buf, pos, n) is None,
    decreases n - k,
{
    if k < n {
        lemma_specs_stay_none(buf, pos, k, (n - 1) as nat);
    }
}

/// Reads `count` field specifiers from `pos`.
fn read_field_specs(buf: &[u8], pos: usize, count: u16) -> (r: Result<
    (Vec<FieldSpecifier>, usize),
    IpfixError,
>)
    requires
        pos <= buf.len(),
    ensures
        match parse_field_specs(buf@, pos as nat, count as nat) {
            Some((s, end)) => r matches Ok((v, e)) && v@ == s && e == end,
            None => r == Err::<(Vec<FieldSpecifier>, usize), IpfixError>(IpfixError::Truncated),
        },
{
    let mut specs: Vec<FieldSpecifier> = Vec::new();
    let mut p = pos;
    let mut i: u16 = 0;
    while i < count
        invariant
            i <= count,
            p <= buf.len(),
            parse_field_specs(buf@, pos as nat, i as nat) == Some((specs@, p as nat)),
        decreases count - i,
    {
        match read_field_spec(buf, p) {
            Ok((f, q)) => {
                specs.push(f);
                p = q;
            },
            Err(e) => {
                proof {
                    lemma_specs_stay_none(buf@, pos as nat, (i + 1) as nat, count as nat);
                }
                return Err(e);
            },
        }
        i = i + 1;
    }
    Ok((specs, p))
}

/// Writes each field specifier in turn.
fn write_field_specs(specs: &Vec<FieldSpecifier>, out: &mut Vec<u8>)
    ensures
        final(out)@ == old(out)@ + field_specs_bytes(specs@),
{
    let mut i: usize = 0;
    while i < specs.len()
        invariant
            i <= specs@.len(),
            out@ == old(out)@ + field_specs_bytes(specs@.subrange(0, i as int)),
        decreases specs@.len() - i,
    {
        let ghost before = out@;
        write_field_spec(&specs[i], out);
        proof {
            let done = specs@.subrange(0, i + 1 as int);
            assert(done.drop_last() =~= specs@.subrange(0, i as int));
            assert(out@ =~= old(out)@ + field_specs_bytes(done));
        }
        i = i + 1;
    }
    assert(specs@.subrange(0, i as int) =~= specs@);
}

/// The wire form of a template record with these fields.
pub open spec fn template_record_bytes(id: u16, specs: Seq<FieldSpecifier>) -> Seq<u8> {
    be_bytes(id as nat, 2) + be_bytes(specs.len(), 2) + field_specs_bytes(specs)
}

/// The wire form of an options template record with these fields.
pub open spec fn options_template_record_bytes(
    id: u16,
    scope_field_count: u16,
    specs: Seq<FieldSpecifier>,
) -> Seq<u8> {
    be_bytes(id as nat, 2) + be_bytes(specs.len(), 2) + be_bytes(scope_field_count as nat, 2)
        + field_specs_bytes(specs)
}

/// The template record at `pos`: its id, its fields and the position after
/// it, or why it cannot be read.
pub open spec fn parse_template_record(buf: Seq<u8>, pos: nat) -> Result<
    (u16, Seq<FieldSpecifier>, nat),
    IpfixError,
> {
    if pos + 4 > buf.len() {
        Err(IpfixError::Truncated)
    } else {
        let id = be_value(buf.subrange(pos as int, pos + 2 as int)) as u16;
        let count = be_value(buf.subrange(pos + 2 as int, pos + 4 as int));
        if id <= 255 {
            Err(IpfixError::ReservedTemplateId(id))
        } else {
            match parse_field_specs(buf, pos + 4, count) {
                None => Err(IpfixError::Truncated),
                Some((s, e)) => Ok((id, s, e)),
            }
        }
    }
}

/// The options template record at `pos`: its id, scope field count, fields
/// and the position after it, or why it cannot be read.
pub open spec fn parse_options_template_record(buf: Seq<u8>, pos: nat) -> Result<
    (u16, u16, Seq<FieldSpecifier>, nat),
    IpfixError,
> {
    if pos + 6 > buf.len() {
        Err(IpfixError::Truncated)
    } else {
        let id = be_value(buf.subrange(pos as int, pos + 2 as int)) as u16;
        let count = be_value(buf.subrange(pos + 2 as int, pos + 4 as int));
        let scope = be_value(buf.subrange(pos + 4 as int, pos + 6 as int)) as u16;
        if id <= 255 {
            Err(IpfixError::ReservedTemplateId(id))
        } else {
            match parse_field_specs(buf, pos + 6, count) {
                None => Err(IpfixError::Truncated),
                Some((s, e)) => Ok((id, scope, s, e)),
            }
        }
    }
}

impl TemplateRecord {
    /// Reads the template record at `pos`. Ids 0 to 255 are reserved.
    pub fn read(buf: &[u8], pos: usize) -> (r: Result<(TemplateRecord, usize), IpfixError>)
        requires
            pos <= buf.len(),
        ensures
            match parse_template_record(buf@, pos as nat) {
                Ok((id, s, end)) => r matches Ok((t, e)) && t.template_id == id
                    && t.field_specifiers@ == s && e == end && e <= buf.len(),
                Err(err) => r == Err::<(TemplateRecord, usize), IpfixError>(err),
            },
    {
        if buf.len() - pos < 4 {
            return Err(IpfixError::Truncated);
        }
        proof {
            lemma_radix_values();
            lemma_be_value_bound(buf@.subrange(pos as int, pos + 2 as int));
            lemma_be_value_bound(buf@.subrange(pos + 2 as int, pos + 4 as int));
        }
        let id = read_be(buf, pos, 2) as u16;
        let count = read_be(buf, pos + 2, 2) as u16;
        if id <= 255 {
            return Err(IpfixError::ReservedTemplateId(id));
        }
        let (specs, end) = read_field_specs(buf, pos + 4, count)?;
        Ok((TemplateRecord { template_id: id, field_specifiers: specs }, end))
    }

    /// Writes the record; fails, writing nothing, when its id is reserved
    /// (0 to 255) or it has more than 65535 fields.
    pub fn write(&self, out: &mut Vec<u8>) -> (r: Result<(), IpfixError>)
        ensures
            self.template_id <= 255 ==> r == Err::<(), IpfixError>(
                IpfixError::ReservedTemplateId(self.template_id),
            ) && final(out)@ == old(out)@,
            self.template_id > 255 && self.field_specifiers@.len() <= 0xFFFF ==> r is Ok && final(out)@ == old(out)@
                + template_record_bytes(self.template_id, self.field_specifiers@),
            self.template_id > 255 && self.field_specifiers@.len() > 0xFFFF ==> r == Err::<(), IpfixError>(
                IpfixError::ValueOverflow,
            ) && final(out)@ == old(out)@,
    {
        if self.template_id <= 255 {
            return Err(IpfixError::ReservedTemplateId(self.template_id));
        }
        if self.field_specifiers.len() > 0xFFFF {
            return Err(IpfixError::ValueOverflow);
        }
        push_be(out, self.template_id as u128, 2);
        push_be(out, self.field_specifiers.len() as u128, 2);
        write_field_specs(&self.field_specifiers, out);
        assert(out@ =~= old(out)@ + template_record_bytes(
            self.template_id,
            self.field_specifiers@,
        ));
        Ok(())
    }
}

impl OptionsTemplateRecord {
    /// Reads the options template record at `pos`. Ids 0 to 255 are reserved.
    pub fn read(buf: &[u8], pos: usize) -> (r: Result<(OptionsTemplateRecord, usize), IpfixError>)
        requires
            pos <= buf.len(),
        ensures
            match parse_options_template_record(buf@, pos as nat) {
                Ok((id, scope, s, end)) => r matches Ok((t, e)) && t.template_id == id
                    && t.scope_field_count == scope && t.field_specifiers@ == s && e == end && e
                    <= buf.len(),
                Err(err) => r == Err::<(OptionsTemplateRecord, usize), IpfixError>(err),
            },
    {
        if buf.len() - pos < 6 {
            return Err(IpfixError::Truncated);
        }
        proof {
            lemma_radix_values();
            lemma_be_value_bound(buf@.subrange(pos as int, pos + 2 as int));
            lemma_be_value_bound(buf@.subrange(pos + 2 as int, pos + 4 as int));
            lemma_be_value_bound(buf@.subrange(pos + 4 as int, pos + 6 as int));
        }
        let id = read_be(buf, pos, 2) as u16;
        let count = read_be(buf, pos + 2, 2) as u16;
        let scope = read_be(buf, pos + 4, 2) as u16;
        if id <= 255 {
            return Err(IpfixError::ReservedTemplateId(id));
        }
        let (specs, end) = read_field_specs(buf, pos + 6, count)?;
        Ok(
            (
                OptionsTemplateRecord {
                    template_id: id,
                    scope_field_count: scope,
                    field_specifiers: specs,
                },
                end,
            ),
        )
    }

    /// Writes the record; fails, writing nothing, when its id is reserved
    /// (0 to 255) or it has more than 65535 fields.
    pub fn write(&self, out: &mut Vec<u8>) -> (r: Result<(), IpfixError>)
        ensures
            self.template_id <= 255 ==> r == Err::<(), IpfixError>(
                IpfixError::ReservedTemplateId(self.template_id),
            ) && final(out)@ == old(out)@,
            self.template_id > 255 && self.field_specifiers@.len() <= 0xFFFF ==> r is Ok && final(out)@ == old(out)@
                + options_template_record_bytes(
                self.template_id,
                self.scope_field_count,
                self.field_specifiers@,
            ),
            self.template_id > 255 && self.field_specifiers@.len() > 0xFFFF ==> r == Err::<(), IpfixError>(
                IpfixError::ValueOverflow,
            ) && final(out)@ == old(out)@,
    {
        if self.template_id <= 255 {
            return Err(IpfixError::ReservedTemplateId(self.template_id));
        }
        if self.field_specifiers.len() > 0xFFFF {
            return Err(IpfixError::ValueOverflow);
        }
        push_be(out, self.template_id as u128, 2);
        push_be(out, self.field_specifiers.len() as u128, 2);
        push_be(out, self.scope_field_count as u128, 2);
        write_field_specs(&self.field_specifiers, out);
        assert(out@ =~= old(out)@ + options_template_record_bytes(
            self.template_id,
            self.scope_field_count,
            self.field_specifiers@,
        ));
        Ok(())
    }
}

} // verus!
