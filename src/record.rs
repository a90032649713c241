//! The record model: a row is an ordered sequence of opaque byte fields.
use vstd::prelude::*;

verus! {

/// The byte content of each field of a sequence of fields.
pub open spec fn fields_view(fs: Seq<Vec<u8>>) -> Seq<Seq<u8>> {
    fs.map_values(|f: Vec<u8>| f@)
}

/// The field content of each record of a sequence of records.
pub open spec fn records_view(rs: Seq<Record>) -> Seq<Seq<Seq<u8>>> {
    rs.map_values(|r: Record| r@)
}

/// One row of a table: its fields, in order, as raw bytes.
pub struct Record {
    pub fields: Vec<Vec<u8>>,
}

impl View for Record {
    type V = Seq<Seq<u8>>;

    open spec fn view(&self) -> Seq<Seq<u8>> {
        fields_view(self.fields@)
    }
}

/// Copies a byte string.
pub fn copy_bytes(b: &Vec<u8>) -> (r: Vec<u8>)
    ensures
        r@ == b@,
{
    let r = b.clone();
    assert(r@ =~= b@);
    r
}

/// Compares two byte strings.
pub fn bytes_equal(a: &Vec<u8>, b: &Vec<u8>) -> (r: bool)
    ensures
        r == (a@ == b@),
{
    if a.len() != b.len() {
        return false;
    }
    let mut i: usize = 0;
    while i < a.len()
        invariant
            a@.len() == b@.len(),
            0 <= i <= a@.len(),
            a@.subrange(0, i as int) == b@.subrange(0, i as int),
        decreases a@.len() - i,
    {
        if a[i] != b[i] {
            assert(a@[i as int] != b@[i as int]);
            return false;
        }
        assert(a@.subrange(0, i + 1) =~= a@.subrange(0, i as int).push(a@[i as int]));
        assert(b@.subrange(0, i + 1) =~= b@.subrange(0, i as int).push(b@[i as int]));
        i = i + 1;
    }
    assert(a@ =~= a@.subrange(0, a@.len() as int));
    assert(b@ =~= b@.subrange(0, b@.len() as int));
    true
}

/// Copies a sequence of fields.
pub fn copy_fields(fs: &Vec<Vec<u8>>) -> (r: Vec<Vec<u8>>)
    ensures
        fields_view(r@) == fields_view(fs@),
{
    let mut r: Vec<Vec<u8>> = Vec::new();
    let mut i: usize = 0;
    while i < fs.len()
        invariant
            0 <= i <= fs@.len(),
            r@.len() == i,
            forall|j: int| 0 <= j < i ==> #[trigger] r@[j]@ == fs@[j]@,
        decreases fs@.len() - i,
    {
        r.push(copy_bytes(&fs[i]));
        i = i + 1;
    }
    assert(fields_view(r@) =~= fields_view(fs@));
    r
}

/// Compares two sequences of fields, field by field.
pub fn fields_equal(a: &Vec<Vec<u8>>, b: &Vec<Vec<u8>>) -> (r: bool)
    ensures
        r == (fields_view(a@) == fields_view(b@)),
{
    let ghost va = fields_view(a@);
    let ghost vb = fields_view(b@);
    if a.len() != b.len() {
        assert(va.len() != vb.len());
        return false;
    }
    let mut i: usize = 0;
    while i < a.len()
        invariant
            a@.len() == b@.len(),
            0 <= i <= a@.len(),
            va == fields_view(a@),
            vb == fields_view(b@),
            forall|j: int| 0 <= j < i ==> #[trigger] va[j] == vb[j],
        decreases a@.len() - i,
    {
        if !bytes_equal(&a[i], &b[i]) {
            assert(va[i as int] != vb[i as int]);
            return false;
        }
        i = i + 1;
    }
    assert(va =~= vb);
    true
}

impl Record {
    /// Builds a record from its fields.
    pub fn new(fields: Vec<Vec<u8>>) -> (r: Record)
        ensures
            r@ == fields_view(fields@),
    {
        Record { fields }
    }

    /// The number of fields.
    pub fn len(&self) -> (n: usize)
        ensures
            n == self@.len(),
    {
        self.fields.len()
    }

    /// A field-by-field copy of this record.
    pub fn duplicate(&self) -> (r: Record)
        ensures
            r@ == self@,
    {
        Record { fields: copy_fields(&self.fields) }
    }
}

} // verus!
