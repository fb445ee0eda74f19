//! The template registry: what each announced template id means, resolved
//! once against the information-element registry.
use crate::field::{DataRecordKey, DataRecordType, FieldSpecifier};
use crate::records::{OptionsTemplateRecord, TemplateRecord};
use std::collections::HashMap;
use vstd::prelude::*;

verus! {

broadcast use vstd::std_specs::hash::group_hash_axioms;

/// One entry of the information-element registry.
#[derive(Clone, Copy, Debug)]
pub struct InformationElement {
    pub enterprise_number: u32,
    pub element_id: u16,
    pub name: &'static str,
    pub ty: DataRecordType,
}

/// The information-element registry: a name and a type for each known
/// (enterprise number, element id) pair.
#[derive(Clone, Debug)]
pub struct Formatter {
    pub elements: Vec<InformationElement>,
}

/// The first entry of `elements` for this enterprise number and element id.
pub open spec fn lookup(elements: Seq<InformationElement>, enterprise_number: u32, element_id: u16) -> Option<
    InformationElement,
>
    decreases elements.len(),
{
    if elements.len() == 0 {
        None
    } else if elements[0].enterprise_number == enterprise_number && elements[0].element_id
        == element_id {
        Some(elements[0])
    } else {
        lookup(elements.drop_first(), enterprise_number, element_id)
    }
}

impl Formatter {
    pub fn new(elements: Vec<InformationElement>) -> (r: Self)
        ensures
            r.elements@ == elements@,
    {
        Formatter { elements }
    }

    /// The name and type that the registry gives the element, if any.
    pub fn get(&self, enterprise_number: u32, element_id: u16) -> (r: Option<
        (&'static str, DataRecordType),
    >)
        ensures
            match lookup(self.elements@, enterprise_number, element_id) {
                Some(e) => r == Some((e.name, e.ty)),
                None => r is None,
            },
    {
        let mut i: usize = 0;
        assert(self.elements@.subrange(0, self.elements@.len() as int) =~= self.elements@);
        while i < self.elements.len()
            invariant
                i <= self.elements@.len(),
                lookup(self.elements@, enterprise_number, element_id) == lookup(
                    self.elements@.subrange(i as int, self.elements@.len() as int),
                    enterprise_number,
                    element_id,
                ),
            decreases self.elements@.len() - i,
        {
            let e = self.elements[i];
            let ghost rest = self.elements@.subrange(i as int, self.elements@.len() as int);
            assert(rest.drop_first() =~= self.elements@.subrange(
                i + 1 as int,
                self.elements@.len() as int,
            ));
            if e.enterprise_number == enterprise_number && e.element_id == element_id {
                return Some((e.name, e.ty));
            }
            i = i + 1;
        }
        None
    }
}

/// A field specifier with the name and type the registry gave it.
#[derive(Clone, Debug, PartialEq, Eq, Hash)]
pub struct ExpandedFieldSpecifier {
    pub name: DataRecordKey,
    pub ty: DataRecordType,
    pub enterprise_number: Option<u32>,
    pub information_element_identifier: u16,
    pub field_length: u16,
}

/// The registry key of a field: its enterprise number, 0 if it has none,
/// and its element id.
pub open spec fn registry_key(f: FieldSpecifier) -> (u32, u16) {
    (
        match f.enterprise_number {
            Some(e) => e,
            None => 0,
        },
        f.information_element_identifier,
    )
}

/// `f` resolved against the registry: the registry's name and type, or an
/// unrecognized name that wraps `f` and the raw-bytes type.
pub open spec fn expand(f: FieldSpecifier, elements: Seq<InformationElement>) -> ExpandedFieldSpecifier {
    let key = registry_key(f);
    let (name, ty) = match lookup(elements, key.0, key.1) {
        Some(e) => (DataRecordKey::Str(e.name), e.ty),
        None => (DataRecordKey::Unrecognized(f), DataRecordType::Bytes),
    };
    ExpandedFieldSpecifier {
        name,
        ty,
        enterprise_number: f.enterprise_number,
        information_element_identifier: f.information_element_identifier,
        field_length: f.field_length,
    }
}

impl ExpandedFieldSpecifier {
    /// Looks the field up in the registry; an element it does not know
    /// becomes an unrecognized name of raw-bytes type.
    pub fn from_field_spec(field_spec: &FieldSpecifier, formatter: &Formatter) -> (r: Self)
        ensures
            r == expand(*field_spec, formatter.elements@),
    {
        let enterprise = match field_spec.enterprise_number {
            Some(e) => e,
            None => 0,
        };
        let (name, ty) = match formatter.get(enterprise, field_spec.information_element_identifier) {
            Some((name, ty)) => (DataRecordKey::Str(name), ty),
            None => (DataRecordKey::Unrecognized(*field_spec), DataRecordType::Bytes),
        };
        ExpandedFieldSpecifier {
            name,
            ty,
            enterprise_number: field_spec.enterprise_number,
            information_element_identifier: field_spec.information_element_identifier,
            field_length: field_spec.field_length,
        }
    }
}

/// A stored template: the resolved fields of a template or options template
/// record.
#[derive(Clone, Debug, PartialEq, Eq, Hash)]
pub enum Template {
    Template(Vec<ExpandedFieldSpecifier>),
    OptionsTemplate(Vec<ExpandedFieldSpecifier>),
}

impl Template {
    /// The fields, whichever kind of record announced them.
    pub open spec fn fields(self) -> Seq<ExpandedFieldSpecifier> {
        match self {
            Template::Template(f) => f@,
            Template::OptionsTemplate(f) => f@,
        }
    }

    pub open spec fn is_options(self) -> bool {
        self is OptionsTemplate
    }

    pub fn field_specifiers(&self) -> (r: &Vec<ExpandedFieldSpecifier>)
        ensures
            r@ == self.fields(),
    {
        match self {
            Template::Template(f) => f,
            Template::OptionsTemplate(f) => f,
        }
    }
}

/// What the registry holds for one id, as far as decoding can tell.
pub open spec fn template_view(t: Template) -> (bool, Seq<ExpandedFieldSpecifier>) {
    (t.is_options(), t.fields())
}

/// The registry after installing each record of `records`, in order, with
/// fields resolved against `elements`. Records with a reserved id (0 to
/// 255) are left out.
pub open spec fn after_template_records(
    m: Map<u16, (bool, Seq<ExpandedFieldSpecifier>)>,
    records: Seq<TemplateRecord>,
    elements: Seq<InformationElement>,
) -> Map<u16, (bool, Seq<ExpandedFieldSpecifier>)>
    decreases records.len(),
{
    if records.len() == 0 {
        m
    } else {
        let r = records.last();
        if r.template_id <= 255 {
            after_template_records(m, records.drop_last(), elements)
        } else {
            after_template_records(m, records.drop_last(), elements).insert(
                r.template_id,
                (false, r.field_specifiers@.map_values(|f: FieldSpecifier| expand(f, elements))),
            )
        }
    }
}

/// As `after_template_records`, for options template records; reserved ids
/// are left out too.
pub open spec fn after_options_template_records(
    m: Map<u16, (bool, Seq<ExpandedFieldSpecifier>)>,
    records: Seq<OptionsTemplateRecord>,
    elements: Seq<InformationElement>,
) -> Map<u16, (bool, Seq<ExpandedFieldSpecifier>)>
    decreases records.len(),
{
    if records.len() == 0 {
        m
    } else {
        let r = records.last();
        if r.template_id <= 255 {
            after_options_template_records(m, records.drop_last(), elements)
        } else {
            after_options_template_records(m, records.drop_last(), elements).insert(
                r.template_id,
                (true, r.field_specifiers@.map_values(|f: FieldSpecifier| expand(f, elements))),
            )
        }
    }
}

/// Resolves every field of a record against the registry.
fn expand_all(specs: &Vec<FieldSpecifier>, formatter: &Formatter) -> (r: Vec<
    ExpandedFieldSpecifier,
>)
    ensures
        r@ == specs@.map_values(|f: FieldSpecifier| expand(f, formatter.elements@)),
{
    let mut r: Vec<ExpandedFieldSpecifier> = Vec::new();
    let mut i: usize = 0;
    while i < specs.len()
        invariant
            i <= specs@.len(),
            r@ == specs@.subrange(0, i as int).map_values(
                |f: FieldSpecifier| expand(f, formatter.elements@),
            ),
        decreases specs@.len() - i,
    {
        r.push(ExpandedFieldSpecifier::from_field_spec(&specs[i], formatter));
        i = i + 1;
        assert(r@ =~= specs@.subrange(0, i as int).map_values(
            |f: FieldSpecifier| expand(f, formatter.elements@),
        ));
    }
    assert(specs@.subrange(0, i as int) =~= specs@);
    r
}

/// A store of templates by id. A later template with the same id replaces
/// the earlier one.
pub trait TemplateStorage {
    /// The templates held, by id.
    spec fn templates(&self) -> Map<u16, Template>;

    fn get_template(&self, template_id: u16) -> (r: Option<&Template>)
        ensures
            match r {
                Some(t) => self.templates().contains_key(template_id) && *t == self.templates()[template_id],
                None => !self.templates().contains_key(template_id),
            },
    ;

    fn insert_template(&mut self, template_id: u16, template: Template)
        ensures
            final(self).templates() == old(self).templates().insert(template_id, template),
    ;

    /// Installs each record's template, its fields resolved against the
    /// registry, in the order given. A record with a reserved id (0 to 255)
    /// is skipped.
    fn insert_template_records(&mut self, template_records: &[TemplateRecord], formatter: &Formatter)
        ensures
            final(self).templates().map_values(|t: Template| template_view(t))
                == after_template_records(
                old(self).templates().map_values(|t: Template| template_view(t)),
                template_records@,
                formatter.elements@,
            ),
    {
        let mut i: usize = 0;
        while i < template_records.len()
            invariant
                i <= template_records@.len(),
                self.templates().map_values(|t: Template| template_view(t))
                    == after_template_records(
                    old(self).templates().map_values(|t: Template| template_view(t)),
                    template_records@.subrange(0, i as int),
                    formatter.elements@,
                ),
            decreases template_records@.len() - i,
        {
            let record = &template_records[i];
            proof {
                let done = template_records@.subrange(0, i + 1 as int);
                assert(done.drop_last() =~= template_records@.subrange(0, i as int));
            }
            if record.template_id > 255 {
                let fields = expand_all(&record.field_specifiers, formatter);
                let ghost before = self.templates();
                self.insert_template(record.template_id, Template::Template(fields));
                proof {
                    assert(self.templates().map_values(|t: Template| template_view(t)) =~= before.map_values(
                        |t: Template| template_view(t),
                    ).insert(record.template_id, (false, fields@)));
                }
            }
            i = i + 1;
        }
        assert(template_records@.subrange(0, i as int) =~= template_records@);
    }

    /// As `insert_template_records`, for options template records.
    fn insert_options_template_records(
        &mut self,
        template_records: &[OptionsTemplateRecord],
        formatter: &Formatter,
    )
        ensures
            final(self).templates().map_values(|t: Template| template_view(t))
                == after_options_template_records(
                old(self).templates().map_values(|t: Template| template_view(t)),
                template_records@,
                formatter.elements@,
            ),
    {
        let mut i: usize = 0;
        while i < template_records.len()
            invariant
                i <= template_records@.len(),
                self.templates().map_values(|t: Template| template_view(t))
                    == after_options_template_records(
                    old(self).templates().map_values(|t: Template| template_view(t)),
                    template_records@.subrange(0, i as int),
                    formatter.elements@,
                ),
            decreases template_records@.len() - i,
        {
            let record = &template_records[i];
            proof {
                let done = template_records@.subrange(0, i + 1 as int);
                assert(done.drop_last() =~= template_records@.subrange(0, i as int));
            }
            if record.template_id > 255 {
                let fields = expand_all(&record.field_specifiers, formatter);
                let ghost before = self.templates();
                self.insert_template(record.template_id, Template::OptionsTemplate(fields));
                proof {
                    assert(self.templates().map_values(|t: Template| template_view(t)) =~= before.map_values(
                        |t: Template| template_view(t),
                    ).insert(record.template_id, (true, fields@)));
                }
            }
            i = i + 1;
        }
        assert(template_records@.subrange(0, i as int) =~= template_records@);
    }
}

/// A template store owned by one stream at a time, with no locking.
#[derive(Debug)]
pub struct TemplateMap {
    map: HashMap<u16, Template>,
}

impl TemplateMap {
    pub fn new() -> (r: Self)
        ensures
            r.templates() == Map::<u16, Template>::empty(),
    {
        TemplateMap { map: HashMap::new() }
    }
}

impl TemplateStorage for TemplateMap {
    closed spec fn templates(&self) -> Map<u16, Template> {
        self.map@
    }

    fn get_template(&self, template_id: u16) -> (r: Option<&Template>) {
        self.map.get(&template_id)
    }

    fn insert_template(&mut self, template_id: u16, template: Template) {
        self.map.insert(template_id, template);
    }
}

} // verus!
