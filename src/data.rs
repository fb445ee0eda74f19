//! Data records: one value for each field of a template, by field name.
use crate::error::IpfixError;
use crate::field::{same_key, DataRecordKey};
use crate::template_store::{ExpandedFieldSpecifier, Template, TemplateStorage};
use crate::value::{U40_MAX, same_value, 
    decodable, decoded, payload_span, read_error, read_value, value_bytes, write_value,
    DataRecordValue,
};
use vstd::prelude::*;
use vstd::utf8::{encode_utf8, encode_utf8_decode_utf8};

verus! {

/// A data record: the value of each field, under the field's name. No two
/// entries have the same name. Two records are equal when they hold the same
/// values under the same names, in whatever order.
#[derive(Clone, Debug)]
pub struct DataRecord {
    pub values: Vec<(DataRecordKey, DataRecordValue)>,
}

pub type Entries = Seq<(DataRecordKey, DataRecordValue)>;

/// The index of the first entry named `k`.
pub open spec fn find_key(s: Entries, k: DataRecordKey) -> Option<nat>
    decreases s.len(),
{
    if s.len() == 0 {
        None
    } else {
        match find_key(s.drop_last(), k) {
            Some(i) => Some(i),
            None => if same_key(s.last().0, k) {
                Some((s.len() - 1) as nat)
            } else {
                None
            },
        }
    }
}

/// The value named `k`, if any.
pub open spec fn entry_value(s: Entries, k: DataRecordKey) -> Option<DataRecordValue> {
    match find_key(s, k) {
        Some(i) => Some(s[i as int].1),
        None => None,
    }
}

/// `s` with `k` holding `v`: the entry named `k` replaced, or a new one
/// at the end.
pub open spec fn entries_insert(s: Entries, k: DataRecordKey, v: DataRecordValue) -> Entries {
    match find_key(s, k) {
        Some(i) => s.update(i as int, (k, v)),
        None => s.push((k, v)),
    }
}

/// Entries that no two share a name.
pub open spec fn unique_keys(s: Entries) -> bool {
    forall|i: int, j: int|
        0 <= i < s.len() && 0 <= j < s.len() && i != j ==> !same_key(#[trigger] s[i].0, #[trigger] s[j].0)
}

proof fn lemma_find_key_extends(s: Entries, k: DataRecordKey, m: nat, n: nat)
    requires
        m <= n <= s.len(),
        find_key(s.subrange(0, m as int), k) is Some,
    ensures
        find_key(s.subrange(0, n as int), k) == find_key(s.subrange(0, m as int), k),
    decreases n - m,
{
    if m < n {
        lemma_find_key_extends(s, k, m, (n - 1) as nat);
        assert(s.subrange(0, n as int).drop_last() =~= s.subrange(0, n - 1 as int));
    }
}

pub proof fn lemma_find_key_bounds(s: Entries, k: DataRecordKey)
    ensures
        find_key(s, k) matches Some(i) ==> i < s.len() && same_key(s[i as int].0, k),
        find_key(s, k) is None ==> forall|j: int| 0 <= j < s.len() ==> !same_key(#[trigger] s[j].0, k),
    decreases s.len(),
{
    if s.len() > 0 {
        lemma_find_key_bounds(s.drop_last(), k);
        if find_key(s.drop_last(), k) is None {
            assert forall|j: int| 0 <= j < s.len() - 1 implies !same_key(#[trigger] s[j].0, k) by {
                assert(s.drop_last()[j] == s[j]);
            }
        }
    }
}

/// Bytes `a` and `b` are equal.
fn bytes_equal(a: &[u8], b: &[u8]) -> (r: bool)
    ensures
        r == (a@ == b@),
{
    if a.len() != b.len() {
        return false;
    }
    let mut i: usize = 0;
    while i < a.len()
        invariant
            a@.len() == b@.len(),
            i <= a@.len(),
            a@.subrange(0, i as int) == b@.subrange(0, i as int),
        decreases a@.len() - i,
    {
        if a[i] != b[i] {
            return false;
        }
        i = i + 1;
        assert(a@.subrange(0, i as int) =~= b@.subrange(0, i as int));
    }
    assert(a@ =~= a@.subrange(0, i as int));
    assert(b@ =~= b@.subrange(0, i as int));
    true
}

/// Strings `a` and `b` hold the same characters.
fn str_equal(a: &str, b: &str) -> (r: bool)
    ensures
        r == (a@ == b@),
{
    proof {
        encode_utf8_decode_utf8(a@);
        encode_utf8_decode_utf8(b@);
    }
    bytes_equal(a.as_bytes(), b.as_bytes())
}

/// `a` and `b` name the same field.
pub fn key_matches(a: &DataRecordKey, b: &DataRecordKey) -> (r: bool)
    ensures
        r == same_key(*a, *b),
{
    match (a, b) {
        (DataRecordKey::Str(x), DataRecordKey::Str(y)) => str_equal(x, y),
        (DataRecordKey::Unrecognized(x), DataRecordKey::Unrecognized(y)) => {
            x.information_element_identifier == y.information_element_identifier
                && x.field_length == y.field_length && match (x.enterprise_number, y.enterprise_number) {
                (Some(p), Some(q)) => p == q,
                (None, None) => true,
                _ => false,
            }
        },
        (DataRecordKey::Error(x), DataRecordKey::Error(y)) => str_equal(x.as_str(), y.as_str()),
        _ => false,
    }
}

impl DataRecord {
    pub open spec fn wf(&self) -> bool {
        unique_keys(self.values@)
    }

    pub fn new() -> (r: Self)
        ensures
            r.values@ == Seq::<(DataRecordKey, DataRecordValue)>::empty(),
            r.wf(),
    {
        DataRecord { values: Vec::new() }
    }

    /// The index of the entry named `key`.
    fn position(&self, key: &DataRecordKey) -> (r: Option<usize>)
        ensures
            r matches Some(i) ==> find_key(self.values@, *key) == Some(i as nat),
            r is None ==> find_key(self.values@, *key) is None,
    {
        let mut i: usize = 0;
        while i < self.values.len()
            invariant
                i <= self.values@.len(),
                find_key(self.values@.subrange(0, i as int), *key) is None,
            decreases self.values@.len() - i,
        {
            let ghost s = self.values@;
            assert(s.subrange(0, i + 1 as int).drop_last() =~= s.subrange(0, i as int));
            if key_matches(&self.values[i].0, key) {
                proof {
                    lemma_find_key_extends(s, *key, (i + 1) as nat, s.len());
                    assert(s.subrange(0, s.len() as int) =~= s);
                }
                return Some(i);
            }
            i = i + 1;
        }
        assert(self.values@.subrange(0, i as int) =~= self.values@);
        None
    }

    /// The value of the field named `key`.
    pub fn get(&self, key: &DataRecordKey) -> (r: Option<&DataRecordValue>)
        ensures
            match entry_value(self.values@, *key) {
                Some(v) => r == Some(&v),
                None => r is None,
            },
    {
        proof {
            lemma_find_key_bounds(self.values@, *key);
        }
        match self.position(key) {
            Some(i) => Some(&self.values[i].1),
            None => None,
        }
    }

    /// Sets the field named `key` to `value`, replacing any earlier value.
    pub fn insert(&mut self, key: DataRecordKey, value: DataRecordValue)
        requires
            old(self).wf(),
        ensures
            final(self).values@ == entries_insert(old(self).values@, key, value),
            final(self).wf(),
    {
        proof {
            lemma_find_key_bounds(self.values@, key);
        }
        match self.position(&key) {
            Some(i) => {
                self.values.set(i, (key, value));
                proof {
                    assert forall|a: int, b: int|
                        0 <= a < self.values@.len() && 0 <= b < self.values@.len() && a != b implies !same_key(
                        #[trigger] self.values@[a].0,
                        #[trigger] self.values@[b].0,
                    ) by {
                        if a != i && b != i {
                            assert(self.values@[a] == old(self).values@[a]);
                            assert(self.values@[b] == old(self).values@[b]);
                        } else if a == i {
                            assert(self.values@[b] == old(self).values@[b]);
                            assert(same_key(old(self).values@[a].0, key));
                        } else {
                            assert(self.values@[a] == old(self).values@[a]);
                            assert(same_key(old(self).values@[b].0, key));
                        }
                    }
                }
            },
            None => {
                self.values.push((key, value));
            },
        }
    }
}

/// Where a record of `fields` that starts at `pos` ends; `None` when one of
/// its fields cannot be read.
pub open spec fn fields_end(fields: Seq<ExpandedFieldSpecifier>, buf: Seq<u8>, pos: nat) -> Option<
    nat,
>
    decreases fields.len(),
{
    if fields.len() == 0 {
        Some(pos)
    } else {
        match fields_end(fields.drop_last(), buf, pos) {
            None => None,
            Some(p) => {
                let f = fields.last();
                if decodable(f.ty, f.field_length, buf, p) {
                    Some((payload_span(f.ty, f.field_length, buf, p)->Some_0).1)
                } else {
                    None
                }
            },
        }
    }
}

/// Why the first field of `fields` that cannot be read fails.
pub open spec fn fields_error(fields: Seq<ExpandedFieldSpecifier>, buf: Seq<u8>, pos: nat) -> IpfixError
    decreases fields.len(),
{
    if fields.len() == 0 {
        IpfixError::Truncated
    } else {
        match fields_end(fields.drop_last(), buf, pos) {
            None => fields_error(fields.drop_last(), buf, pos),
            Some(p) => read_error(fields.last().ty, fields.last().field_length, buf, p),
        }
    }
}

/// `vals` are the values of `fields`, read one after another from `pos`.
pub open spec fn fields_decoded(
    fields: Seq<ExpandedFieldSpecifier>,
    buf: Seq<u8>,
    pos: nat,
    vals: Seq<DataRecordValue>,
) -> bool {
    &&& vals.len() == fields.len()
    &&& forall|i: int|
        0 <= i < fields.len() ==> decoded(
            (#[trigger] fields[i]).ty,
            fields[i].field_length,
            buf,
            fields_end(fields.take(i), buf, pos)->Some_0,
            vals[i],
            fields_end(fields.take(i + 1), buf, pos)->Some_0,
        )
}

/// The entries of a record whose fields, in order, took the values `vals`.
pub open spec fn entries_from(fields: Seq<ExpandedFieldSpecifier>, vals: Seq<DataRecordValue>) -> Entries
    decreases fields.len(),
{
    if fields.len() == 0 || vals.len() == 0 {
        Seq::empty()
    } else {
        entries_insert(
            entries_from(fields.drop_last(), vals.drop_last()),
            fields.last().name,
            vals.last(),
        )
    }
}

/// The bytes of a record with `entries` written by `fields`, or the first
/// reason it cannot be written.
pub open spec fn record_bytes(fields: Seq<ExpandedFieldSpecifier>, entries: Entries) -> Result<
    Seq<u8>,
    IpfixError,
>
    decreases fields.len(),
{
    if fields.len() == 0 {
        Ok(Seq::empty())
    } else {
        match record_bytes(fields.drop_last(), entries) {
            Err(e) => Err(e),
            Ok(b) => {
                let f = fields.last();
                match entry_value(entries, f.name) {
                    None => Err(IpfixError::MissingData(f.name)),
                    Some(v) => match value_bytes(v, f.field_length) {
                        None => Err(IpfixError::ValueOverflow),
                        Some(x) => Ok(b + x),
                    },
                }
            },
        }
    }
}

/// What writing a record with `entries` by `fields` leaves behind: all its
/// bytes, or, when a field fails, the bytes of the fields before it.
pub open spec fn record_written(fields: Seq<ExpandedFieldSpecifier>, entries: Entries) -> Seq<u8>
    decreases fields.len(),
{
    if fields.len() == 0 {
        Seq::empty()
    } else {
        match record_bytes(fields.drop_last(), entries) {
            Err(_) => record_written(fields.drop_last(), entries),
            Ok(b) => match record_bytes(fields, entries) {
                Ok(b2) => b2,
                Err(_) => b,
            },
        }
    }
}

proof fn lemma_written_stays(fields: Seq<ExpandedFieldSpecifier>, entries: Entries, k: nat, n: nat)
    requires
        k <= n <= fields.len(),
        record_bytes(fields.take(k as int), entries) is Err,
    ensures
        record_written(fields.take(n as int), entries) == record_written(fields.take(k as int), entries),
    decreases n - k,
{
    if k < n {
        lemma_written_stays(fields, entries, k, (n - 1) as nat);
        lemma_bytes_stay_failed(fields, entries, k, (n - 1) as nat);
        assert(fields.take(n as int).drop_last() =~= fields.take(n - 1 as int));
    }
}

proof fn lemma_fields_stay_failed(fields: Seq<ExpandedFieldSpecifier>, buf: Seq<u8>, pos: nat, k: nat, n: nat)
    requires
        k <= n <= fields.len(),
        fields_end(fields.take(k as int), buf, pos) is None,
    ensures
        fields_end(fields.take(n as int), buf, pos) is None,
        fields_error(fields.take(n as int), buf, pos) == fields_error(fields.take(k as int), buf, pos),
    decreases n - k,
{
    if k < n {
        lemma_fields_stay_failed(fields, buf, pos, k, (n - 1) as nat);
        assert(fields.take(n as int).drop_last() =~= fields.take(n - 1 as int));
    }
}

proof fn lemma_bytes_stay_failed(fields: Seq<ExpandedFieldSpecifier>, entries: Entries, k: nat, n: nat)
    requires
        k <= n <= fields.len(),
        record_bytes(fields.take(k as int), entries) is Err,
    ensures
        record_bytes(fields.take(n as int), entries) == record_bytes(fields.take(k as int), entries),
    decreases n - k,
{
    if k < n {
        lemma_bytes_stay_failed(fields, entries, k, (n - 1) as nat);
        assert(fields.take(n as int).drop_last() =~= fields.take(n - 1 as int));
    }
}

/// A copy of a field name.
fn copy_key(k: &DataRecordKey) -> (r: DataRecordKey)
    ensures
        r == *k,
{
    match k {
        DataRecordKey::Str(s) => DataRecordKey::Str(*s),
        DataRecordKey::Unrecognized(f) => DataRecordKey::Unrecognized(*f),
        DataRecordKey::Error(s) => DataRecordKey::Error(s.clone()),
    }
}

impl DataRecord {
    /// Reads one record of `fields` at `pos`, each field by its type and
    /// declared length, in order.
    pub fn read_fields(fields: &Vec<ExpandedFieldSpecifier>, buf: &[u8], pos: usize) -> (r: Result<
        (DataRecord, usize),
        IpfixError,
    >)
        requires
            pos <= buf.len(),
        ensures
            match fields_end(fields@, buf@, pos as nat) {
                Some(end) => r matches Ok((rec, e)) && e == end && rec.wf() && exists|
                    vals: Seq<DataRecordValue>,
                | fields_decoded(fields@, buf@, pos as nat, vals) && rec.values@ == entries_from(
                    fields@,
                    vals,
                ),
                None => r == Err::<(DataRecord, usize), IpfixError>(
                    fields_error(fields@, buf@, pos as nat),
                ),
            },
    {
        let mut rec = DataRecord::new();
        let mut p = pos;
        let mut i: usize = 0;
        let ghost mut vals: Seq<DataRecordValue> = Seq::empty();
        assert(fields@.take(0) =~= Seq::<ExpandedFieldSpecifier>::empty());
        while i < fields.len()
            invariant
                i <= fields@.len(),
                pos <= p <= buf.len(),
                fields_end(fields@.take(i as int), buf@, pos as nat) == Some(p as nat),
                fields_decoded(fields@.take(i as int), buf@, pos as nat, vals),
                rec.values@ == entries_from(fields@.take(i as int), vals),
                rec.wf(),
            decreases fields@.len() - i,
        {
            let f = &fields[i];
            let ghost pre = fields@.take(i as int);
            let ghost next = fields@.take(i + 1 as int);
            assert(next.drop_last() =~= pre);
            match read_value(f.ty, f.field_length, buf, p) {
                Ok((v, q)) => {
                    let ghost new_vals = vals.push(v);
                    proof {
                        assert forall|j: int| 0 <= j < next.len() implies decoded(
                            (#[trigger] next[j]).ty,
                            next[j].field_length,
                            buf@,
                            fields_end(next.take(j), buf@, pos as nat)->Some_0,
                            new_vals[j],
                            fields_end(next.take(j + 1), buf@, pos as nat)->Some_0,
                        ) by {
                            if j < i {
                                assert(next.take(j) =~= pre.take(j));
                                assert(next.take(j + 1) =~= pre.take(j + 1));
                                assert(next[j] == pre[j]);
                            } else {
                                assert(next.take(j) =~= pre);
                                assert(next.take(j + 1) =~= next);
                            }
                        }
                        assert(new_vals.drop_last() =~= vals);
                    }
                    rec.insert(copy_key(&f.name), v);
                    proof {
                        vals = new_vals;
                    }
                    p = q;
                },
                Err(e) => {
                    proof {
                        lemma_fields_stay_failed(fields@, buf@, pos as nat, (i + 1) as nat, fields@.len());
                        assert(fields@.take(fields@.len() as int) =~= fields@);
                    }
                    return Err(e);
                },
            }
            i = i + 1;
        }
        assert(fields@.take(i as int) =~= fields@);
        Ok((rec, p))
    }

    /// Writes the value of each field of `fields`, in order, at the field's
    /// declared length.
    pub fn write_fields(&self, fields: &Vec<ExpandedFieldSpecifier>, out: &mut Vec<u8>) -> (r: Result<
        (),
        IpfixError,
    >)
        ensures
            match record_bytes(fields@, self.values@) {
                Ok(b) => r is Ok && final(out)@ == old(out)@ + b,
                Err(e) => r == Err::<(), IpfixError>(e),
            },
            final(out)@ == old(out)@ + record_written(fields@, self.values@),
    {
        let mut i: usize = 0;
        assert(fields@.take(0) =~= Seq::<ExpandedFieldSpecifier>::empty());
        assert(out@.subrange(out@.len() as int, out@.len() as int) =~= Seq::<u8>::empty());
        assert(out@.subrange(0, out@.len() as int) =~= out@);
        while i < fields.len()
            invariant
                i <= fields@.len(),
                record_bytes(fields@.take(i as int), self.values@) == Ok::<Seq<u8>, IpfixError>(
                    out@.subrange(old(out)@.len() as int, out@.len() as int),
                ),
                old(out)@.len() <= out@.len(),
                out@.subrange(0, old(out)@.len() as int) == old(out)@,
            decreases fields@.len() - i,
        {
            let f = &fields[i];
            let ghost pre = fields@.take(i as int);
            let ghost next = fields@.take(i + 1 as int);
            assert(next.drop_last() =~= pre);
            let ghost before = out@;
            match self.get(&f.name) {
                None => {
                    proof {
                        lemma_bytes_stay_failed(fields@, self.values@, (i + 1) as nat, fields@.len());
                        assert(fields@.take(fields@.len() as int) =~= fields@);
                        lemma_written_stays(fields@, self.values@, (i + 1) as nat, fields@.len());
                        assert(record_written(next, self.values@) == before.subrange(old(out)@.len() as int, before.len() as int));
                        assert(out@ =~= old(out)@ + before.subrange(old(out)@.len() as int, before.len() as int));
                    }
                    return Err(IpfixError::MissingData(copy_key(&f.name)));
                },
                Some(v) => {
                    match write_value(v, f.field_length, out) {
                        Ok(()) => {
                            assert(out@.subrange(old(out)@.len() as int, out@.len() as int)
                                =~= before.subrange(old(out)@.len() as int, before.len() as int)
                                + value_bytes(*v, f.field_length)->Some_0);
                            assert(out@.subrange(0, old(out)@.len() as int) =~= before.subrange(
                                0,
                                old(out)@.len() as int,
                            ));
                        },
                        Err(e) => {
                            proof {
                                lemma_bytes_stay_failed(
                                    fields@,
                                    self.values@,
                                    (i + 1) as nat,
                                    fields@.len(),
                                );
                                assert(fields@.take(fields@.len() as int) =~= fields@);
                        lemma_written_stays(fields@, self.values@, (i + 1) as nat, fields@.len());
                        assert(record_written(next, self.values@) == before.subrange(old(out)@.len() as int, before.len() as int));
                        assert(out@ =~= old(out)@ + before.subrange(old(out)@.len() as int, before.len() as int));
                            }
                            return Err(e);
                        },
                    }
                },
            }
            i = i + 1;
        }
        assert(fields@.take(i as int) =~= fields@);
        assert(out@ =~= old(out)@ + out@.subrange(old(out)@.len() as int, out@.len() as int));
        assert(record_written(fields@, self.values@) == out@.subrange(old(out)@.len() as int, out@.len() as int));
        Ok(())
    }

    /// Reads one record of data set `set_id` at `pos`, by the template
    /// stored under that id. Set ids 0 to 255 never name a data set.
    pub fn read<S: TemplateStorage>(buf: &[u8], pos: usize, set_id: u16, templates: &S) -> (r: Result<
        (DataRecord, usize),
        IpfixError,
    >)
        requires
            pos <= buf.len(),
        ensures
            set_id <= 255 ==> r == Err::<(DataRecord, usize), IpfixError>(
                IpfixError::ReservedSetId(set_id),
            ),
            set_id > 255 && !templates.templates().contains_key(set_id) ==> r == Err::<
                (DataRecord, usize),
                IpfixError,
            >(IpfixError::MissingTemplate(set_id)),
            set_id > 255 && templates.templates().contains_key(set_id) ==> ({
                let fields = templates.templates()[set_id].fields();
                match fields_end(fields, buf@, pos as nat) {
                    Some(end) => r matches Ok((rec, e)) && e == end && rec.wf() && exists|
                        vals: Seq<DataRecordValue>,
                    | fields_decoded(fields, buf@, pos as nat, vals) && rec.values@ == entries_from(
                        fields,
                        vals,
                    ),
                    None => r == Err::<(DataRecord, usize), IpfixError>(
                        fields_error(fields, buf@, pos as nat),
                    ),
                }
            }),
    {
        if set_id <= 255 {
            return Err(IpfixError::ReservedSetId(set_id));
        }
        match templates.get_template(set_id) {
            None => Err(IpfixError::MissingTemplate(set_id)),
            Some(t) => DataRecord::read_fields(t.field_specifiers(), buf, pos),
        }
    }

    /// Writes the record as one of data set `set_id`, by the template stored
    /// under that id. Set ids 0 to 255 never name a data set.
    pub fn write<S: TemplateStorage>(&self, set_id: u16, templates: &S, out: &mut Vec<u8>) -> (r: Result<
        (),
        IpfixError,
    >)
        ensures
            set_id <= 255 ==> r == Err::<(), IpfixError>(IpfixError::ReservedSetId(set_id))
                && final(out)@ == old(out)@,
            set_id > 255 && !templates.templates().contains_key(set_id) ==> r == Err::<
                (),
                IpfixError,
            >(IpfixError::MissingTemplate(set_id)) && final(out)@ == old(out)@,
            set_id > 255 && templates.templates().contains_key(set_id) ==> match record_bytes(
                templates.templates()[set_id].fields(),
                self.values@,
            ) {
                Ok(b) => r is Ok && final(out)@ == old(out)@ + b,
                Err(e) => r == Err::<(), IpfixError>(e),
            },
            set_id > 255 && templates.templates().contains_key(set_id) ==> final(out)@ == old(out)@
                + record_written(
                templates.templates()[set_id].fields(),
                self.values@,
            ),
    {
        if set_id <= 255 {
            return Err(IpfixError::ReservedSetId(set_id));
        }
        match templates.get_template(set_id) {
            None => Err(IpfixError::MissingTemplate(set_id)),
            Some(t) => self.write_fields(t.field_specifiers(), out),
        }
    }
}

/// A record whose value for a field of its template is a 5-byte integer
/// above 40 bits cannot be written: writing fails with an overflow, and
/// what is left written is the bytes of the fields before that one.
pub proof fn lemma_u40_overflow_fails(fields: Seq<ExpandedFieldSpecifier>, entries: Entries, k: int)
    requires
        0 <= k < fields.len(),
        record_bytes(fields.take(k), entries) is Ok,
        entry_value(entries, fields[k].name) matches Some(DataRecordValue::U40(x)) && x > U40_MAX,
    ensures
        record_bytes(fields, entries) == Err::<Seq<u8>, IpfixError>(IpfixError::ValueOverflow),
        record_written(fields, entries) == record_bytes(fields.take(k), entries)->Ok_0,
{
    assert(fields.take(k + 1).drop_last() =~= fields.take(k));
    assert(fields.take(k + 1).last() == fields[k]);
    lemma_bytes_stay_failed(fields, entries, (k + 1) as nat, fields.len());
    lemma_written_stays(fields, entries, (k + 1) as nat, fields.len());
    assert(fields.take(fields.len() as int) =~= fields);
}

/// The names of a record built from `fields` are exactly the fields' names:
/// each field's name has an entry, and each entry is named after a field.
pub proof fn lemma_entries_names(fields: Seq<ExpandedFieldSpecifier>, vals: Seq<DataRecordValue>)
    requires
        vals.len() == fields.len(),
    ensures
        forall|i: int|
            0 <= i < fields.len() ==> #[trigger] find_key(entries_from(fields, vals), fields[i].name)
                is Some,
        forall|j: int|
            0 <= j < entries_from(fields, vals).len() ==> exists|i: int|
                0 <= i < fields.len() && same_key(
                    #[trigger] entries_from(fields, vals)[j].0,
                    fields[i].name,
                ),
    decreases fields.len(),
{
    if fields.len() > 0 {
        let f0 = fields.drop_last();
        let v0 = vals.drop_last();
        let e0 = entries_from(f0, v0);
        let k = fields.last().name;
        let e = entries_from(fields, vals);
        lemma_entries_names(f0, v0);
        lemma_find_key_bounds(e0, k);
        assert forall|j: int| 0 <= j < e.len() implies exists|i: int|
            0 <= i < fields.len() && same_key(#[trigger] e[j].0, fields[i].name) by {
            if find_key(e0, k) is Some {
                let p = find_key(e0, k)->Some_0 as int;
                if j == p {
                    assert(same_key(e[j].0, fields[fields.len() - 1].name));
                } else {
                    let i0 = choose|i: int| 0 <= i < f0.len() && same_key(#[trigger] e0[j].0, f0[i].name);
                    assert(same_key(e[j].0, fields[i0].name));
                }
            } else {
                if j < e0.len() {
                    let i0 = choose|i: int| 0 <= i < f0.len() && same_key(#[trigger] e0[j].0, f0[i].name);
                    assert(same_key(e[j].0, fields[i0].name));
                } else {
                    assert(same_key(e[j].0, fields[fields.len() - 1].name));
                }
            }
        }
        assert forall|i: int| 0 <= i < fields.len() implies #[trigger] find_key(e, fields[i].name)
            is Some by {
            let n = fields[i].name;
            lemma_find_key_bounds(e, n);
            if i == fields.len() - 1 {
                if find_key(e0, k) is Some {
                    let p = find_key(e0, k)->Some_0 as int;
                    assert(same_key(e[p].0, n));
                } else {
                    assert(same_key(e[e0.len() as int].0, n));
                }
            } else {
                assert(f0[i] == fields[i]);
                assert(find_key(e0, n) is Some);
                lemma_find_key_bounds(e0, n);
                let q = find_key(e0, n)->Some_0 as int;
                if find_key(e0, k) is Some {
                    let p = find_key(e0, k)->Some_0 as int;
                    if q == p {
                        assert(same_key(e[q].0, k));
                        assert(same_key(e0[q].0, k));
                        assert(same_key(e[q].0, n));
                    } else {
                        assert(same_key(e[q].0, n));
                    }
                } else {
                    assert(same_key(e[q].0, n));
                }
            }
        }
    }
}

/// Two values are the same.
fn value_equal(a: &DataRecordValue, b: &DataRecordValue) -> (r: bool)
    ensures
        r == same_value(*a, *b),
{
    match (a, b) {
        (DataRecordValue::U8(x), DataRecordValue::U8(y)) => x == y,
        (DataRecordValue::U16(x), DataRecordValue::U16(y)) => x == y,
        (DataRecordValue::U32(x), DataRecordValue::U32(y)) => x == y,
        (DataRecordValue::U40(x), DataRecordValue::U40(y)) => x == y,
        (DataRecordValue::U64(x), DataRecordValue::U64(y)) => x == y,
        (DataRecordValue::I8(x), DataRecordValue::I8(y)) => x == y,
        (DataRecordValue::I16(x), DataRecordValue::I16(y)) => x == y,
        (DataRecordValue::I32(x), DataRecordValue::I32(y)) => x == y,
        (DataRecordValue::I64(x), DataRecordValue::I64(y)) => x == y,
        (DataRecordValue::F32(x), DataRecordValue::F32(y)) => x == y,
        (DataRecordValue::F64(x), DataRecordValue::F64(y)) => x == y,
        (DataRecordValue::Bool(x), DataRecordValue::Bool(y)) => x == y,
        (DataRecordValue::MacAddress(x), DataRecordValue::MacAddress(y)) => bytes_equal(
            x.as_slice(),
            y.as_slice(),
        ),
        (DataRecordValue::Bytes(x), DataRecordValue::Bytes(y)) => bytes_equal(
            x.as_slice(),
            y.as_slice(),
        ),
        (DataRecordValue::String(x), DataRecordValue::String(y)) => str_equal(x.as_str(), y.as_str()),
        (DataRecordValue::DateTimeSeconds(x), DataRecordValue::DateTimeSeconds(y)) => x == y,
        (DataRecordValue::DateTimeMilliseconds(x), DataRecordValue::DateTimeMilliseconds(y)) => x
            == y,
        (DataRecordValue::DateTimeMicroseconds(x), DataRecordValue::DateTimeMicroseconds(y)) => x
            == y,
        (DataRecordValue::DateTimeNanoseconds(x), DataRecordValue::DateTimeNanoseconds(y)) => x
            == y,
        (DataRecordValue::Ipv4Addr(x), DataRecordValue::Ipv4Addr(y)) => x == y,
        (DataRecordValue::Ipv6Addr(x), DataRecordValue::Ipv6Addr(y)) => x == y,
        _ => false,
    }
}

/// Records `a` and `b` have as many entries, and each entry of `a` has the
/// same value in `b`.
pub open spec fn same_record(a: Entries, b: Entries) -> bool {
    &&& a.len() == b.len()
    &&& forall|i: int|
        0 <= i < a.len() ==> (entry_value(b, (#[trigger] a[i]).0) matches Some(v) && same_value(
            a[i].1,
            v,
        ))
}

impl PartialEq for DataRecord {
    fn eq(&self, other: &DataRecord) -> (r: bool) {
        if self.values.len() != other.values.len() {
            return false;
        }
        let mut i: usize = 0;
        while i < self.values.len()
            invariant
                i <= self.values@.len(),
                self.values@.len() == other.values@.len(),
                forall|j: int|
                    0 <= j < i ==> (entry_value(other.values@, (#[trigger] self.values@[j]).0) matches Some(
                        v,
                    ) && same_value(self.values@[j].1, v)),
            decreases self.values@.len() - i,
        {
            match other.get(&self.values[i].0) {
                None => {
                    return false;
                },
                Some(v) => {
                    if !value_equal(&self.values[i].1, v) {
                        return false;
                    }
                },
            }
            i = i + 1;
        }
        true
    }
}

impl vstd::std_specs::cmp::PartialEqSpecImpl for DataRecord {
    open spec fn obeys_eq_spec() -> bool {
        true
    }

    open spec fn eq_spec(&self, other: &DataRecord) -> bool {
        same_record(self.values@, other.values@)
    }
}

} // verus!
