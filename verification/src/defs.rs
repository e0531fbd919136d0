//! What an operator declares: indexes and references.

use vstd::prelude::*;
use vstd::string::*;

use crate::text::{copy_text, str_eq, text_view, utf8};

verus! {

/// Longest name of a declared index or reference.
pub const MAX_NAME_LEN: usize = 128;

/// A byte that may stand in a name.
pub open spec fn name_byte(b: u8) -> bool {
    ||| 0x30 <= b <= 0x39
    ||| 0x41 <= b <= 0x5a
    ||| 0x61 <= b <= 0x7a
    ||| b == 0x5f
    ||| b == 0x2d
}

/// A text that is a name: letters, digits, `_` and `-`.
pub open spec fn is_name(s: Seq<char>) -> bool {
    &&& 1 <= utf8(s).len() <= MAX_NAME_LEN
    &&& forall|i: int| 0 <= i < utf8(s).len() ==> name_byte(#[trigger] utf8(s)[i])
}

/// Whether a text is a name.
pub fn check_name(s: &str) -> (r: bool)
    ensures
        r == is_name(s@),
{
    let bytes = s.as_bytes();
    if bytes.len() == 0 || bytes.len() > MAX_NAME_LEN {
        return false;
    }
    let mut i: usize = 0;
    while i < bytes.len()
        invariant
            i <= bytes.len(),
            bytes@ == utf8(s@),
            forall|j: int| 0 <= j < i ==> name_byte(#[trigger] bytes@[j]),
        decreases bytes.len() - i,
    {
        let b: u8 = bytes[i];
        let ok = (b >= 0x30 && b <= 0x39) || (b >= 0x41 && b <= 0x5a) || (b >= 0x61 && b <= 0x7a) || b == 0x5f
            || b == 0x2d;
        if !ok {
            proof {
                assert(!name_byte(bytes@[i as int]));
            }
            return false;
        }
        i = i + 1;
    }
    true
}

/// Why a definition is not one.
#[derive(Clone, Copy, PartialEq, Eq, Debug, Structural)]
pub enum DefError {
    Name,
    Kind,
    Field,
    ParentKind,
    ParentField,
}

/// An index over one field of the data of one kind.
#[derive(Debug)]
pub struct IndexDef {
    pub name: String,
    pub kind: String,
    pub field: String,
    pub unique: bool,
}

#[verifier::ext_equal]
pub struct IndexDefView {
    pub name: Seq<char>,
    pub kind: Seq<char>,
    pub field: Seq<char>,
    pub unique: bool,
}

impl View for IndexDef {
    type V = IndexDefView;

    open spec fn view(&self) -> IndexDefView {
        IndexDefView { name: self.name@, kind: self.kind@, field: self.field@, unique: self.unique }
    }
}

impl IndexDefView {
    pub open spec fn checked(self) -> Result<(), DefError> {
        if !is_name(self.name) {
            Err(DefError::Name)
        } else if self.kind.len() == 0 {
            Err(DefError::Kind)
        } else if self.field.len() == 0 {
            Err(DefError::Field)
        } else {
            Ok(())
        }
    }
}

impl IndexDef {
    pub fn copy(&self) -> (r: IndexDef)
        ensures
            r@ == self@,
    {
        IndexDef {
            name: self.name.clone(),
            kind: self.kind.clone(),
            field: self.field.clone(),
            unique: self.unique,
        }
    }

    pub fn same(&self, other: &IndexDef) -> (r: bool)
        ensures
            r == (self@ == other@),
    {
        let r = str_eq(&self.name, &other.name) && str_eq(&self.kind, &other.kind) && str_eq(
            &self.field,
            &other.field,
        ) && self.unique == other.unique;
        proof {
            if r {
                assert(self@ =~= other@);
            }
        }
        r
    }

    pub fn validate(&self) -> (r: Result<(), DefError>)
        ensures
            r == self@.checked(),
    {
        if !check_name(&self.name) {
            Err(DefError::Name)
        } else if self.kind.as_str().is_empty() {
            Err(DefError::Kind)
        } else if self.field.as_str().is_empty() {
            Err(DefError::Field)
        } else {
            Ok(())
        }
    }
}

/// An inverted index over the text of one field of the data of one kind.
#[derive(Debug)]
pub struct TextIndexDef {
    pub name: String,
    pub kind: String,
    pub field: String,
}

#[verifier::ext_equal]
pub struct TextIndexDefView {
    pub name: Seq<char>,
    pub kind: Seq<char>,
    pub field: Seq<char>,
}

impl View for TextIndexDef {
    type V = TextIndexDefView;

    open spec fn view(&self) -> TextIndexDefView {
        TextIndexDefView { name: self.name@, kind: self.kind@, field: self.field@ }
    }
}

impl TextIndexDefView {
    pub open spec fn checked(self) -> Result<(), DefError> {
        if !is_name(self.name) {
            Err(DefError::Name)
        } else if self.kind.len() == 0 {
            Err(DefError::Kind)
        } else if self.field.len() == 0 {
            Err(DefError::Field)
        } else {
            Ok(())
        }
    }
}

impl TextIndexDef {
    pub fn copy(&self) -> (r: TextIndexDef)
        ensures
            r@ == self@,
    {
        TextIndexDef { name: self.name.clone(), kind: self.kind.clone(), field: self.field.clone() }
    }

    pub fn same(&self, other: &TextIndexDef) -> (r: bool)
        ensures
            r == (self@ == other@),
    {
        let r = str_eq(&self.name, &other.name) && str_eq(&self.kind, &other.kind) && str_eq(
            &self.field,
            &other.field,
        );
        proof {
            if r {
                assert(self@ =~= other@);
            }
        }
        r
    }

    pub fn validate(&self) -> (r: Result<(), DefError>)
        ensures
            r == self@.checked(),
    {
        if !check_name(&self.name) {
            Err(DefError::Name)
        } else if self.kind.as_str().is_empty() {
            Err(DefError::Kind)
        } else if self.field.as_str().is_empty() {
            Err(DefError::Field)
        } else {
            Ok(())
        }
    }
}

/// What deleting a referenced node does to the nodes referencing it.
#[derive(Clone, Copy, PartialEq, Eq, Debug, Structural)]
pub enum ReferentialAction {
    Cascade,
    Restrict,
    SetNull,
}

/// A field of one kind's data that names nodes of another kind: by address,
/// or by the value of one of their fields.
#[derive(Debug)]
pub struct ReferenceDef {
    pub name: String,
    pub kind: String,
    pub field: String,
    pub parent_kind: String,
    pub parent_field: Option<String>,
    pub on_delete: ReferentialAction,
}

#[verifier::ext_equal]
pub struct ReferenceDefView {
    pub name: Seq<char>,
    pub kind: Seq<char>,
    pub field: Seq<char>,
    pub parent_kind: Seq<char>,
    pub parent_field: Option<Seq<char>>,
    pub on_delete: ReferentialAction,
}

impl View for ReferenceDef {
    type V = ReferenceDefView;

    open spec fn view(&self) -> ReferenceDefView {
        ReferenceDefView {
            name: self.name@,
            kind: self.kind@,
            field: self.field@,
            parent_kind: self.parent_kind@,
            parent_field: text_view(self.parent_field),
            on_delete: self.on_delete,
        }
    }
}

impl ReferenceDefView {
    pub open spec fn checked(self) -> Result<(), DefError> {
        if !is_name(self.name) {
            Err(DefError::Name)
        } else if self.kind.len() == 0 {
            Err(DefError::Kind)
        } else if self.field.len() == 0 {
            Err(DefError::Field)
        } else if self.parent_kind.len() == 0 {
            Err(DefError::ParentKind)
        } else if self.parent_field == Some(Seq::<char>::empty()) {
            Err(DefError::ParentField)
        } else {
            Ok(())
        }
    }
}

impl ReferenceDef {
    pub fn copy(&self) -> (r: ReferenceDef)
        ensures
            r@ == self@,
    {
        ReferenceDef {
            name: self.name.clone(),
            kind: self.kind.clone(),
            field: self.field.clone(),
            parent_kind: self.parent_kind.clone(),
            parent_field: copy_text(&self.parent_field),
            on_delete: self.on_delete,
        }
    }

    pub fn same(&self, other: &ReferenceDef) -> (r: bool)
        ensures
            r == (self@ == other@),
    {
        let parents = match (&self.parent_field, &other.parent_field) {
            (Some(a), Some(b)) => str_eq(a, b),
            (None, None) => true,
            _ => false,
        };
        let r = str_eq(&self.name, &other.name) && str_eq(&self.kind, &other.kind) && str_eq(
            &self.field,
            &other.field,
        ) && str_eq(&self.parent_kind, &other.parent_kind) && parents && self.on_delete == other.on_delete;
        proof {
            if r {
                assert(self@ =~= other@);
            }
        }
        r
    }

    pub fn validate(&self) -> (r: Result<(), DefError>)
        ensures
            r == self@.checked(),
    {
        if !check_name(&self.name) {
            return Err(DefError::Name);
        }
        if self.kind.as_str().is_empty() {
            return Err(DefError::Kind);
        }
        if self.field.as_str().is_empty() {
            return Err(DefError::Field);
        }
        if self.parent_kind.as_str().is_empty() {
            return Err(DefError::ParentKind);
        }
        match &self.parent_field {
            Some(field) => {
                if field.as_str().is_empty() {
                    proof {
                        assert(field@ =~= Seq::<char>::empty());
                    }
                    return Err(DefError::ParentField);
                }
            },
            None => {},
        }
        Ok(())
    }
}

// ---------------------------------------------------------------------
// Logs of definitions
// ---------------------------------------------------------------------

/// A record of the log of data indexes.
#[derive(Debug)]
pub enum IndexOpRecord {
    Put(IndexDef),
    Drop(String),
}

pub enum IndexOpView {
    Put(IndexDefView),
    Drop(Seq<char>),
}

impl View for IndexOpRecord {
    type V = IndexOpView;

    open spec fn view(&self) -> IndexOpView {
        match *self {
            IndexOpRecord::Put(d) => IndexOpView::Put(d@),
            IndexOpRecord::Drop(name) => IndexOpView::Drop(name@),
        }
    }
}

/// A record of the log of text indexes.
#[derive(Debug)]
pub enum TextIndexOpRecord {
    Put(TextIndexDef),
    Drop(String),
}

pub enum TextIndexOpView {
    Put(TextIndexDefView),
    Drop(Seq<char>),
}

impl View for TextIndexOpRecord {
    type V = TextIndexOpView;

    open spec fn view(&self) -> TextIndexOpView {
        match *self {
            TextIndexOpRecord::Put(d) => TextIndexOpView::Put(d@),
            TextIndexOpRecord::Drop(name) => TextIndexOpView::Drop(name@),
        }
    }
}

/// A record of the log of references.
#[derive(Debug)]
pub enum ReferenceOpRecord {
    Put(ReferenceDef),
    Drop(String),
}

pub enum ReferenceOpView {
    Put(ReferenceDefView),
    Drop(Seq<char>),
}

impl View for ReferenceOpRecord {
    type V = ReferenceOpView;

    open spec fn view(&self) -> ReferenceOpView {
        match *self {
            ReferenceOpRecord::Put(d) => ReferenceOpView::Put(d@),
            ReferenceOpRecord::Drop(name) => ReferenceOpView::Drop(name@),
        }
    }
}

} // verus!
