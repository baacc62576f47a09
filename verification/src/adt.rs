//! Algebraic data types: named types made of constructors with typed
//! fields, sum/product classification, the Σ-notation of a type, and a
//! registry of types by name.
use vstd::prelude::*;
use vstd::string::*;
use crate::text::{append_joined, join, str_eq};

verus! {

/// Name of a constructor.
#[derive(Debug, Clone, PartialEq, Eq, Hash)]
pub struct ConstructorName(pub String);

/// A constructor with its fields.
#[derive(Debug, Clone)]
pub struct Constructor {
    pub name: ConstructorName,
    pub fields: Vec<FieldType>,
}

/// A field: an optional name and a type name.
#[derive(Debug, Clone)]
pub struct FieldType {
    pub name: Option<String>,
    pub type_tag: String,
}

/// An algebraic data type: a name and its constructors.
#[derive(Debug, Clone)]
pub struct AlgebraicDataType {
    pub name: String,
    pub constructors: Vec<Constructor>,
}

/// Failures of type definitions.
#[derive(Debug)]
pub enum ADTError {
    DuplicateType { name: String },
    DuplicateConstructor { owner_type: String, constructor_name: String },
    UnknownConstructor { owner_type: String, constructor_name: String },
    TypeMismatch { expected: String, got: String },
}

/// Σ-notation of one constructor: its name, followed by its field types
/// joined with " × " in parentheses when it has fields.
pub open spec fn variant_text(c: Constructor) -> Seq<char> {
    if c.fields@.len() == 0 {
        c.name.0@
    } else {
        c.name.0@ + "("@ + join(c.fields@.map_values(|f: FieldType| f.type_tag@), " × "@) + ")"@
    }
}

/// Σ-notation of a type: "name = V₁ | V₂ | …", or "name = ∅" without
/// constructors.
pub open spec fn sigma_text(t: AlgebraicDataType) -> Seq<char> {
    if t.constructors@.len() == 0 {
        t.name@ + " = ∅"@
    } else {
        t.name@ + " = "@ + join(t.constructors@.map_values(|c: Constructor| variant_text(c)), " | "@)
    }
}

/// Index of the first constructor named `name`, if any.
pub open spec fn constructor_index(cs: Seq<Constructor>, name: Seq<char>) -> Option<int> {
    if exists|i: int| 0 <= i < cs.len() && #[trigger] cs[i].name.0@ == name {
        Some(choose|i: int|
            0 <= i < cs.len() && #[trigger] cs[i].name.0@ == name && forall|j: int| 0 <= j < i ==> cs[j].name.0@ != name)
    } else {
        None
    }
}

fn first_constructor(cs: &Vec<Constructor>, name: &str) -> (r: Option<usize>)
    ensures
        match r {
            Some(i) => i < cs@.len() && cs@[i as int].name.0@ == name@ && forall|j: int| 0 <= j < i ==> cs@[j].name.0@ != name@,
            None => forall|j: int| 0 <= j < cs@.len() ==> cs@[j].name.0@ != name@,
        },
{
    let mut i: usize = 0;
    while i < cs.len()
        invariant
            i <= cs@.len(),
            forall|j: int| 0 <= j < i ==> cs@[j].name.0@ != name@,
        decreases cs@.len() - i,
    {
        if str_eq(cs[i].name.0.as_str(), name) {
            return Some(i);
        }
        i = i + 1;
    }
    None
}

proof fn lemma_constructor_index(cs: Seq<Constructor>, name: Seq<char>, i: int)
    requires
        0 <= i < cs.len(),
        cs[i].name.0@ == name,
        forall|j: int| 0 <= j < i ==> cs[j].name.0@ != name,
    ensures
        constructor_index(cs, name) == Some(i),
{
    let k = choose|k: int|
        0 <= k < cs.len() && #[trigger] cs[k].name.0@ == name && forall|j: int| 0 <= j < k ==> cs[j].name.0@ != name;
    assert(cs[i].name.0@ == name);
    if k < i {
        assert(cs[k].name.0@ != name);
    } else if k > i {
        assert(cs[i].name.0@ != name);
    }
}

impl AlgebraicDataType {
    pub fn new(name: String) -> (t: Self)
        ensures
            t.name@ == name@,
            t.constructors@.len() == 0,
    {
        AlgebraicDataType { name, constructors: Vec::new() }
    }

    /// Add a constructor; a name already present is refused with
    /// `DuplicateConstructor`.
    pub fn add_constructor(&mut self, constructor: Constructor) -> (r: Result<(), ADTError>)
        ensures
            final(self).name@ == old(self).name@,
            constructor_index(old(self).constructors@, constructor.name.0@).is_some() ==> {
                &&& r matches Err(ADTError::DuplicateConstructor { owner_type, constructor_name })
                &&& owner_type@ == old(self).name@
                &&& constructor_name@ == constructor.name.0@
                &&& final(self).constructors@ == old(self).constructors@
            },
            constructor_index(old(self).constructors@, constructor.name.0@).is_none() ==> {
                &&& r is Ok
                &&& final(self).constructors@ == old(self).constructors@.push(constructor)
            },
    {
        match first_constructor(&self.constructors, constructor.name.0.as_str()) {
            Some(i) => {
                proof {
                    lemma_constructor_index(self.constructors@, constructor.name.0@, i as int);
                }
                Err(ADTError::DuplicateConstructor { owner_type: self.name.clone(), constructor_name: constructor.name.0.clone() })
            },
            None => {
                self.constructors.push(constructor);
                Ok(())
            },
        }
    }

    pub fn variant_count(&self) -> (n: usize)
        ensures
            n == self.constructors@.len(),
    {
        self.constructors.len()
    }

    /// The first constructor with this name.
    pub fn find_constructor(&self, name: &str) -> (r: Option<&Constructor>)
        ensures
            match constructor_index(self.constructors@, name@) {
                Some(i) => r == Some(&self.constructors@[i]),
                None => r.is_none(),
            },
    {
        match first_constructor(&self.constructors, name) {
            Some(i) => {
                proof {
                    lemma_constructor_index(self.constructors@, name@, i as int);
                }
                Some(&self.constructors[i])
            },
            None => None,
        }
    }

    /// More than one constructor.
    pub fn is_sum_type(&self) -> (b: bool)
        ensures
            b == (self.constructors@.len() > 1),
    {
        self.constructors.len() > 1
    }

    /// Exactly one constructor, with more than one field.
    pub fn is_product_type(&self) -> (b: bool)
        ensures
            b == (self.constructors@.len() == 1 && self.constructors@[0].fields@.len() > 1),
    {
        self.constructors.len() == 1 && self.constructors[0].fields.len() > 1
    }

    /// The Σ-notation of the type.
    pub fn to_sigma(&self) -> (s: String)
        ensures
            s@ == sigma_text(*self),
    {
        let mut out = self.name.clone();
        if self.constructors.len() == 0 {
            out.append(" = ∅");
            return out;
        }
        out.append(" = ");
        let mut variants: Vec<String> = Vec::new();
        let mut i: usize = 0;
        while i < self.constructors.len()
            invariant
                i <= self.constructors@.len(),
                variants@.len() == i,
                forall|k: int| 0 <= k < i ==> #[trigger] variants@[k]@ == variant_text(self.constructors@[k]),
            decreases self.constructors@.len() - i,
        {
            let c = &self.constructors[i];
            let mut v = c.name.0.clone();
            if c.fields.len() > 0 {
                let mut tags: Vec<String> = Vec::new();
                let mut k: usize = 0;
                while k < c.fields.len()
                    invariant
                        k <= c.fields@.len(),
                        tags@.len() == k,
                        forall|m: int| 0 <= m < k ==> #[trigger] tags@[m]@ == c.fields@[m].type_tag@,
                    decreases c.fields@.len() - k,
                {
                    tags.push(c.fields[k].type_tag.clone());
                    k = k + 1;
                }
                v.append("(");
                append_joined(&mut v, &tags, " × ");
                v.append(")");
                proof {
                    assert(tags@.map_values(|s: String| s@) =~= c.fields@.map_values(|f: FieldType| f.type_tag@));
                }
            }
            variants.push(v);
            i = i + 1;
        }
        append_joined(&mut out, &variants, " | ");
        proof {
            assert(variants@.map_values(|s: String| s@) =~= self.constructors@.map_values(|c: Constructor| variant_text(c)));
        }
        out
    }
}

impl ADTError {
    /// The error as a message.
    pub fn message(&self) -> (s: String)
        ensures
            s@ == match self {
                ADTError::DuplicateType { name } => "نوع مكرر: "@ + name@,
                ADTError::DuplicateConstructor { owner_type, constructor_name } => "بناء مكرر في "@ + owner_type@ + ": "@
                    + constructor_name@,
                ADTError::UnknownConstructor { owner_type, constructor_name } => "بناء غير معروف: "@ + constructor_name@
                    + " في "@ + owner_type@,
                ADTError::TypeMismatch { expected, got } => "عدم تطابق: متوقع "@ + expected@ + "، حصل "@ + got@,
            },
    {
        match self {
            ADTError::DuplicateType { name } => {
                let mut s = String::from_str("نوع مكرر: ");
                s.append(name.as_str());
                s
            },
            ADTError::DuplicateConstructor { owner_type, constructor_name } => {
                let mut s = String::from_str("بناء مكرر في ");
                s.append(owner_type.as_str());
                s.append(": ");
                s.append(constructor_name.as_str());
                s
            },
            ADTError::UnknownConstructor { owner_type, constructor_name } => {
                let mut s = String::from_str("بناء غير معروف: ");
                s.append(constructor_name.as_str());
                s.append(" في ");
                s.append(owner_type.as_str());
                s
            },
            ADTError::TypeMismatch { expected, got } => {
                let mut s = String::from_str("عدم تطابق: متوقع ");
                s.append(expected.as_str());
                s.append("، حصل ");
                s.append(got.as_str());
                s
            },
        }
    }
}

/// Registry of types by name; no two registered types share a name.
pub struct ADTRegistry {
    types: Vec<AlgebraicDataType>,
}

impl ADTRegistry {
    /// The registered types, in registration order.
    pub closed spec fn entries(&self) -> Seq<AlgebraicDataType> {
        self.types@
    }

    /// Registered names are distinct.
    pub closed spec fn wf(&self) -> bool {
        forall|a: int, b: int| 0 <= a < b < self.types@.len() ==> #[trigger] self.types@[a].name@ != #[trigger] self.types@[b].name@
    }

    /// Whether a type of this name is registered.
    pub open spec fn has_name(&self, name: Seq<char>) -> bool {
        exists|i: int| 0 <= i < self.entries().len() && #[trigger] self.entries()[i].name@ == name
    }

    pub fn new() -> (r: Self)
        ensures
            r.wf(),
            r.entries().len() == 0,
    {
        ADTRegistry { types: Vec::new() }
    }

    fn position(&self, name: &str) -> (r: Option<usize>)
        ensures
            match r {
                Some(i) => i < self.types@.len() && self.types@[i as int].name@ == name@,
                None => !self.has_name(name@),
            },
    {
        let mut i: usize = 0;
        while i < self.types.len()
            invariant
                i <= self.types@.len(),
                forall|j: int| 0 <= j < i ==> self.types@[j].name@ != name@,
            decreases self.types@.len() - i,
        {
            if str_eq(self.types[i].name.as_str(), name) {
                return Some(i);
            }
            i = i + 1;
        }
        None
    }

    /// Register a type; a name already registered is refused with
    /// `DuplicateType`.
    pub fn register(&mut self, adt: AlgebraicDataType) -> (r: Result<(), ADTError>)
        requires
            old(self).wf(),
        ensures
            final(self).wf(),
            old(self).has_name(adt.name@) ==> (r matches Err(ADTError::DuplicateType { name }) && name@ == adt.name@)
                && final(self).entries() == old(self).entries(),
            !old(self).has_name(adt.name@) ==> r is Ok && final(self).entries() == old(self).entries().push(adt),
    {
        match self.position(adt.name.as_str()) {
            Some(_) => Err(ADTError::DuplicateType { name: adt.name.clone() }),
            None => {
                let ghost old_self = *self;
                self.types.push(adt);
                proof {
                    assert forall|a: int, b: int| 0 <= a < b < self.types@.len() implies #[trigger] self.types@[a].name@
                        != #[trigger] self.types@[b].name@ by {
                        if b == self.types@.len() - 1 {
                            assert(old_self.entries()[a] == self.types@[a]);
                            if old_self.entries()[a].name@ == adt.name@ {
                                assert(old_self.has_name(adt.name@));
                            }
                        }
                    }
                }
                Ok(())
            },
        }
    }

    /// The type registered under this name.
    pub fn lookup(&self, name: &str) -> (r: Option<&AlgebraicDataType>)
        requires
            self.wf(),
        ensures
            self.has_name(name@) ==> (r matches Some(t) && t.name@ == name@ && self.entries().contains(*t)),
            !self.has_name(name@) ==> r.is_none(),
    {
        match self.position(name) {
            Some(i) => {
                proof {
                    assert(self.entries()[i as int].name@ == name@);
                    assert(self.entries()[i as int] == self.types@[i as int]);
                }
                Some(&self.types[i])
            },
            None => None,
        }
    }

    pub fn len(&self) -> (n: usize)
        ensures
            n == self.entries().len(),
    {
        self.types.len()
    }

    pub fn is_empty(&self) -> (b: bool)
        ensures
            b == (self.entries().len() == 0),
    {
        self.types.len() == 0
    }

    /// The registered names, in registration order.
    pub fn type_names(&self) -> (r: Vec<&String>)
        ensures
            r@.len() == self.entries().len(),
            forall|i: int| 0 <= i < r@.len() ==> (#[trigger] r@[i])@ == self.entries()[i].name@,
    {
        let mut out: Vec<&String> = Vec::new();
        let mut i: usize = 0;
        while i < self.types.len()
            invariant
                i <= self.types@.len(),
                out@.len() == i,
                forall|k: int| 0 <= k < i ==> (#[trigger] out@[k])@ == self.types@[k].name@,
            decreases self.types@.len() - i,
        {
            out.push(&self.types[i].name);
            i = i + 1;
        }
        out
    }
}

impl Default for ADTRegistry {
    fn default() -> (r: Self)
        ensures
            r.wf(),
            r.entries().len() == 0,
    {
        Self::new()
    }
}

} // verus!
