//! Column selection: resolving column references against a header, and
//! projecting the selected fields out of a record.
use vstd::prelude::*;

use crate::record::{Record, bytes_equal, copy_bytes, fields_view};

verus! {

/// A reference to one column: by its name in the header, or by its
/// zero-based position.
pub enum ColumnRef {
    Name(Vec<u8>),
    Index(usize),
}

/// Why a selection could not be resolved.
#[derive(Debug)]
pub enum SelectError {
    /// No header field carries this name.
    UnknownColumn(Vec<u8>),
    /// This position lies past the last field.
    InvalidRange(usize),
}

/// A resolved selection: an ordered list of field positions, which may
/// repeat and need not be sorted.
pub struct Selection {
    pub indices: Vec<usize>,
}

impl View for Selection {
    type V = Seq<usize>;

    open spec fn view(&self) -> Seq<usize> {
        self.indices@
    }
}

/// Whether `name` is a field of `header`.
pub open spec fn has_name(header: Seq<Seq<u8>>, name: Seq<u8>) -> bool {
    exists|i: int| 0 <= i < header.len() && header[i] == name
}

/// Whether `c` names a column of `header`.
pub open spec fn resolvable(header: Seq<Seq<u8>>, c: ColumnRef) -> bool {
    match c {
        ColumnRef::Name(n) => has_name(header, n@),
        ColumnRef::Index(k) => k < header.len(),
    }
}

/// Whether `c` resolves to position `idx` of `header`: a name resolves to
/// its first occurrence.
pub open spec fn resolves_to(header: Seq<Seq<u8>>, c: ColumnRef, idx: usize) -> bool {
    match c {
        ColumnRef::Name(n) => idx < header.len() && header[idx as int] == n@ && forall|j: int|
            0 <= j < idx ==> header[j] != n@,
        ColumnRef::Index(k) => idx == k && k < header.len(),
    }
}

/// The error reported for an unresolvable reference.
pub open spec fn error_for(c: ColumnRef, e: SelectError) -> bool {
    match (c, e) {
        (ColumnRef::Name(n), SelectError::UnknownColumn(m)) => n@ == m@,
        (ColumnRef::Index(k), SelectError::InvalidRange(j)) => k == j,
        _ => false,
    }
}

/// Whether every position of `sel` lies within a record of `n` fields.
pub open spec fn fits(sel: Seq<usize>, n: nat) -> bool {
    forall|i: int| 0 <= i < sel.len() ==> #[trigger] sel[i] < n
}

/// The selected fields of `rec`, in selection order.
pub open spec fn project(rec: Seq<Seq<u8>>, sel: Seq<usize>) -> Seq<Seq<u8>> {
    Seq::new(sel.len(), |i: int| rec[sel[i] as int])
}

fn find_name(header: &Record, name: &Vec<u8>) -> (r: Option<usize>)
    ensures
        match r {
            Some(i) => resolves_to(header@, ColumnRef::Name(*name), i),
            None => !has_name(header@, name@),
        },
{
    let mut i: usize = 0;
    while i < header.fields.len()
        invariant
            0 <= i <= header@.len(),
            forall|j: int| 0 <= j < i ==> header@[j] != name@,
        decreases header@.len() - i,
    {
        if bytes_equal(&header.fields[i], name) {
            return Some(i);
        }
        i = i + 1;
    }
    None
}

/// Resolves column references against a header, in order. Fails on the
/// first reference that names no column of the header.
pub fn resolve(header: &Record, refs: &Vec<ColumnRef>) -> (r: Result<Selection, SelectError>)
    ensures
        r is Ok <==> forall|i: int| 0 <= i < refs@.len() ==> resolvable(header@, #[trigger] refs@[i]),
        match r {
            Ok(sel) => sel@.len() == refs@.len() && forall|i: int|
                0 <= i < refs@.len() ==> resolves_to(header@, #[trigger] refs@[i], sel@[i]),
            Err(e) => exists|i: int|
                0 <= i < refs@.len() && !resolvable(header@, #[trigger] refs@[i]) && error_for(
                    refs@[i],
                    e,
                ) && forall|j: int| 0 <= j < i ==> resolvable(header@, #[trigger] refs@[j]),
        },
{
    let mut indices: Vec<usize> = Vec::new();
    let mut i: usize = 0;
    while i < refs.len()
        invariant
            0 <= i <= refs@.len(),
            indices@.len() == i,
            forall|j: int| 0 <= j < i ==> resolvable(header@, #[trigger] refs@[j]),
            forall|j: int| 0 <= j < i ==> resolves_to(header@, #[trigger] refs@[j], indices@[j]),
        decreases refs@.len() - i,
    {
        match &refs[i] {
            ColumnRef::Name(n) => {
                match find_name(header, n) {
                    Some(k) => indices.push(k),
                    None => {
                        return Err(SelectError::UnknownColumn(copy_bytes(n)));
                    },
                }
            },
            ColumnRef::Index(k) => {
                if *k < header.fields.len() {
                    indices.push(*k);
                } else {
                    return Err(SelectError::InvalidRange(*k));
                }
            },
        }
        i = i + 1;
    }
    Ok(Selection { indices })
}

impl Selection {
    /// The selection of every field of a record of `n` fields, in order.
    pub fn all(n: usize) -> (r: Selection)
        ensures
            r@ == Seq::new(n as nat, |i: int| i as usize),
    {
        let mut indices: Vec<usize> = Vec::new();
        let mut i: usize = 0;
        while i < n
            invariant
                0 <= i <= n,
                indices@ =~= Seq::new(i as nat, |j: int| j as usize),
            decreases n - i,
        {
            indices.push(i);
            i = i + 1;
        }
        Selection { indices }
    }

    /// The number of selected positions.
    pub fn len(&self) -> (n: usize)
        ensures
            n == self@.len(),
    {
        self.indices.len()
    }

    /// Whether every selected position lies within a record of `n` fields.
    pub fn fits_width(&self, n: usize) -> (r: bool)
        ensures
            r == fits(self@, n as nat),
    {
        let mut i: usize = 0;
        while i < self.indices.len()
            invariant
                0 <= i <= self@.len(),
                forall|j: int| 0 <= j < i ==> #[trigger] self@[j] < n,
            decreases self@.len() - i,
        {
            if self.indices[i] >= n {
                return false;
            }
            i = i + 1;
        }
        true
    }

    /// The selected fields of `rec`, in selection order.
    pub fn project(&self, rec: &Record) -> (r: Vec<Vec<u8>>)
        requires
            fits(self@, rec@.len()),
        ensures
            fields_view(r@) == project(rec@, self@),
    {
        let mut r: Vec<Vec<u8>> = Vec::new();
        let mut i: usize = 0;
        while i < self.indices.len()
            invariant
                0 <= i <= self@.len(),
                fits(self@, rec@.len()),
                r@.len() == i,
                forall|j: int| 0 <= j < i ==> #[trigger] r@[j]@ == rec@[self@[j] as int],
            decreases self@.len() - i,
        {
            let k = self.indices[i];
            assert(self@[i as int] < rec@.len());
            r.push(copy_bytes(&rec.fields[k]));
            i = i + 1;
        }
        assert(fields_view(r@) =~= project(rec@, self@));
        r
    }
}

} // verus!
