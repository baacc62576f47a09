//! Foundation data types: scalar types, tensor element types and shapes.
use vstd::prelude::*;
use crate::text::str_eq;

verus! {

/// Core data types of the language.
#[derive(Debug, PartialEq, Eq, Hash)]
pub enum DataType {
    Bool,
    Int64,
    Text,
    Decimal { precision: u8, scale: u8 },
    Float64,
    Bytes,
    Date,
    Timestamp { with_timezone: bool },
    Uuid,
    Json,
    Tensor { dtype: TensorDtype, shape: Shape },
    Model { name: String },
    Function { arg_types: Vec<DataType>, return_type: Box<DataType> },
}

/// Element type of a tensor.
#[derive(Debug, Clone, Copy, PartialEq, Eq, Hash, Structural)]
pub enum TensorDtype {
    F32,
    F64,
    I32,
    I64,
    Bool,
}

/// Runtime shape of a tensor.
#[derive(Debug, Clone, PartialEq, Eq, Hash)]
pub struct Shape {
    pub dims: Vec<usize>,
}

/// Product of a sequence of dimensions.
pub open spec fn dims_product(s: Seq<usize>) -> int
    decreases s.len(),
{
    if s.len() == 0 {
        1
    } else {
        dims_product(s.drop_last()) * s.last()
    }
}

/// Dimension `i` of `s` after left-padding it with ones to rank `r`.
pub open spec fn padded_dim(s: Seq<usize>, r: int, i: int) -> usize {
    if i < r - s.len() {
        1usize
    } else {
        s[i - (r - s.len())]
    }
}

/// The larger of two ranks.
pub open spec fn max_rank(a: Seq<usize>, b: Seq<usize>) -> int {
    if a.len() >= b.len() {
        a.len() as int
    } else {
        b.len() as int
    }
}

/// NumPy broadcasting rule: after padding with leading ones, every pair of
/// dimensions is equal or one of them is 1.
pub open spec fn broadcastable(a: Seq<usize>, b: Seq<usize>) -> bool {
    let r = max_rank(a, b);
    forall|i: int|
        0 <= i < r ==> {
            let x = #[trigger] padded_dim(a, r, i);
            let y = padded_dim(b, r, i);
            x == y || x == 1 || y == 1
        }
}

/// Broadcast result: at each padded position a dimension of 1 stretches
/// to the other one.
pub open spec fn broadcast_dims(a: Seq<usize>, b: Seq<usize>) -> Seq<usize> {
    let r = max_rank(a, b);
    Seq::new(
        r as nat,
        |i: int|
            if padded_dim(a, r, i) == 1 {
                padded_dim(b, r, i)
            } else {
                padded_dim(a, r, i)
            },
    )
}

fn padded_at(dims: &Vec<usize>, r: usize, i: usize) -> (d: usize)
    requires
        dims.len() <= r,
        i < r,
    ensures
        d == padded_dim(dims@, r as int, i as int),
{
    let pad = r - dims.len();
    if i < pad {
        1
    } else {
        dims[i - pad]
    }
}

impl Shape {
    pub fn new(dims: Vec<usize>) -> (s: Self)
        ensures
            s.dims@ == dims@,
    {
        Shape { dims }
    }

    pub fn rank(&self) -> (r: usize)
        ensures
            r == self.dims@.len(),
    {
        self.dims.len()
    }

    /// Number of elements. Every partial product must fit in `usize`, as the
    /// running product of the dimensions is not allowed to overflow.
    pub fn numel(&self) -> (n: usize)
        requires
            forall|i: int| 0 <= i <= self.dims@.len() ==> #[trigger] dims_product(self.dims@.take(i)) <= usize::MAX,
        ensures
            n == dims_product(self.dims@),
    {
        let mut acc: usize = 1;
        let mut i: usize = 0;
        while i < self.dims.len()
            invariant
                i <= self.dims@.len(),
                acc == dims_product(self.dims@.take(i as int)),
                forall|k: int| 0 <= k <= self.dims@.len() ==> #[trigger] dims_product(self.dims@.take(k)) <= usize::MAX,
            decreases self.dims@.len() - i,
        {
            assert(self.dims@.take(i as int + 1).drop_last() =~= self.dims@.take(i as int));
            assert(dims_product(self.dims@.take(i as int + 1)) <= usize::MAX);
            acc = acc * self.dims[i];
            i = i + 1;
        }
        assert(self.dims@.take(i as int) =~= self.dims@);
        acc
    }

    /// Whether the two shapes are broadcast-compatible.
    pub fn can_broadcast(&self, other: &Shape) -> (b: bool)
        ensures
            b == broadcastable(self.dims@, other.dims@),
    {
        let r = if self.dims.len() >= other.dims.len() { self.dims.len() } else { other.dims.len() };
        let mut i: usize = 0;
        while i < r
            invariant
                r == max_rank(self.dims@, other.dims@),
                i <= r,
                forall|k: int|
                    0 <= k < i ==> {
                        let x = #[trigger] padded_dim(self.dims@, r as int, k);
                        let y = padded_dim(other.dims@, r as int, k);
                        x == y || x == 1 || y == 1
                    },
            decreases r - i,
        {
            let d1 = padded_at(&self.dims, r, i);
            let d2 = padded_at(&other.dims, r, i);
            if d1 != d2 && d1 != 1 && d2 != 1 {
                return false;
            }
            i = i + 1;
        }
        true
    }

    /// The broadcast shape, or `None` when the shapes are incompatible.
    pub fn broadcast_shape(&self, other: &Shape) -> (res: Option<Shape>)
        ensures
            broadcastable(self.dims@, other.dims@) <==> res.is_some(),
            res.is_some() ==> res.unwrap().dims@ == broadcast_dims(self.dims@, other.dims@),
    {
        if !self.can_broadcast(other) {
            return None;
        }
        let r = if self.dims.len() >= other.dims.len() { self.dims.len() } else { other.dims.len() };
        let mut out: Vec<usize> = Vec::new();
        let mut i: usize = 0;
        while i < r
            invariant
                r == max_rank(self.dims@, other.dims@),
                i <= r,
                out@.len() == i,
                forall|k: int| 0 <= k < i ==> out@[k] == #[trigger] broadcast_dims(self.dims@, other.dims@)[k],
            decreases r - i,
        {
            let d1 = padded_at(&self.dims, r, i);
            let d2 = padded_at(&other.dims, r, i);
            out.push(if d1 == 1 { d2 } else { d1 });
            i = i + 1;
        }
        assert(out@ =~= broadcast_dims(self.dims@, other.dims@));
        Some(Shape::new(out))
    }
}


/// A data type as a value: names by their characters, shapes by their
/// dimensions, function types by their argument and result types.
pub enum DTM {
    Bool,
    Int64,
    Text,
    Decimal { precision: u8, scale: u8 },
    Float64,
    Bytes,
    Date,
    Timestamp { with_timezone: bool },
    Uuid,
    Json,
    Tensor { dtype: TensorDtype, dims: Seq<usize> },
    Model { name: Seq<char> },
    Function { args: Seq<DTM>, ret: Box<DTM> },
}

/// The value of a data type.
pub open spec fn dtm(d: DataType) -> DTM
    decreases d, 1nat, 0int,
{
    match d {
        DataType::Bool => DTM::Bool,
        DataType::Int64 => DTM::Int64,
        DataType::Text => DTM::Text,
        DataType::Decimal { precision, scale } => DTM::Decimal { precision, scale },
        DataType::Float64 => DTM::Float64,
        DataType::Bytes => DTM::Bytes,
        DataType::Date => DTM::Date,
        DataType::Timestamp { with_timezone } => DTM::Timestamp { with_timezone },
        DataType::Uuid => DTM::Uuid,
        DataType::Json => DTM::Json,
        DataType::Tensor { dtype, shape } => DTM::Tensor { dtype, dims: shape.dims@ },
        DataType::Model { name } => DTM::Model { name: name@ },
        DataType::Function { arg_types, return_type } => {
            proof {
                assert(decreases_to!(d => d->Function_return_type));
            }
            DTM::Function { args: dtm_args(d, arg_types@.len() as int), ret: Box::new(dtm(*return_type)) }
        },
    }
}

/// The values of the first `n` argument types of function type `d`.
pub open spec fn dtm_args(d: DataType, n: int) -> Seq<DTM>
    decreases d, 0nat, n,
{
    match d {
        DataType::Function { arg_types, .. } => if n <= 0 || n > arg_types@.len() {
            Seq::empty()
        } else {
            proof {
                assert(decreases_to!(d => d->Function_arg_types));
                assert(decreases_to!(arg_types => arg_types@));
                assert(decreases_to!(arg_types@ => arg_types@[n - 1]));
            }
            dtm_args(d, n - 1).push(dtm(arg_types@[n - 1]))
        },
        _ => Seq::empty(),
    }
}

/// The values of a list of data types.
pub open spec fn dtm_seq(s: Seq<DataType>) -> Seq<DTM> {
    s.map_values(|d: DataType| dtm(d))
}

/// The argument values of a function type are its argument types' values.
pub proof fn lemma_dtm_args(d: DataType, n: int)
    requires
        d is Function,
        0 <= n <= d->Function_arg_types@.len(),
    ensures
        dtm_args(d, n) == dtm_seq(d->Function_arg_types@).take(n),
    decreases n,
{
    if n > 0 {
        lemma_dtm_args(d, n - 1);
        assert(dtm_seq(d->Function_arg_types@).take(n) =~= dtm_seq(d->Function_arg_types@).take(n - 1).push(
            dtm(d->Function_arg_types@[n - 1]),
        ));
    } else {
        assert(dtm_seq(d->Function_arg_types@).take(0) =~= Seq::<DTM>::empty());
    }
}

/// The value of a function type, by its parts.
pub proof fn lemma_dtm_function(d: DataType)
    requires
        d is Function,
    ensures
        dtm(d) == (DTM::Function {
            args: dtm_seq(d->Function_arg_types@),
            ret: Box::new(dtm(*d->Function_return_type)),
        }),
{
    lemma_dtm_args(d, d->Function_arg_types@.len() as int);
    assert(dtm_seq(d->Function_arg_types@).take(d->Function_arg_types@.len() as int) =~= dtm_seq(
        d->Function_arg_types@,
    ));
}

/// Whether two dimension lists are equal.
fn dims_eq(a: &Vec<usize>, b: &Vec<usize>) -> (r: bool)
    ensures
        r == (a@ == b@),
{
    if a.len() != b.len() {
        return false;
    }
    let mut i: usize = 0;
    while i < a.len()
        invariant
            a@.len() == b@.len(),
            i <= a@.len(),
            forall|k: int| 0 <= k < i ==> a@[k] == b@[k],
        decreases a@.len() - i,
    {
        if a[i] != b[i] {
            return false;
        }
        i = i + 1;
    }
    assert(a@ =~= b@);
    true
}

impl Shape {
    /// A copy of the shape.
    pub fn copy(&self) -> (r: Shape)
        ensures
            r.dims@ == self.dims@,
    {
        Shape { dims: self.dims.clone() }
    }
}

impl DataType {
    /// A copy of the data type.
    pub fn copy(&self) -> (r: DataType)
        ensures
            dtm(r) == dtm(*self),
        decreases self,
    {
        match self {
            DataType::Bool => DataType::Bool,
            DataType::Int64 => DataType::Int64,
            DataType::Text => DataType::Text,
            DataType::Decimal { precision, scale } => DataType::Decimal { precision: *precision, scale: *scale },
            DataType::Float64 => DataType::Float64,
            DataType::Bytes => DataType::Bytes,
            DataType::Date => DataType::Date,
            DataType::Timestamp { with_timezone } => DataType::Timestamp { with_timezone: *with_timezone },
            DataType::Uuid => DataType::Uuid,
            DataType::Json => DataType::Json,
            DataType::Tensor { dtype, shape } => DataType::Tensor { dtype: *dtype, shape: shape.copy() },
            DataType::Model { name } => DataType::Model { name: name.clone() },
            DataType::Function { arg_types, return_type } => {
                let mut out: Vec<DataType> = Vec::new();
                let mut i: usize = 0;
                while i < arg_types.len()
                    invariant
                        *self == (DataType::Function { arg_types: *arg_types, return_type: *return_type }),
                        i <= arg_types@.len(),
                        out@.len() == i,
                        forall|k: int| 0 <= k < i ==> dtm(#[trigger] out@[k]) == dtm(arg_types@[k]),
                    decreases arg_types@.len() - i,
                {
                    proof {
                        let w = (*self)->Function_arg_types;
                        assert(decreases_to!(*self => (*self)->Function_arg_types));
                        assert(decreases_to!(w => w@));
                        assert(decreases_to!(w@ => w@[i as int]));
                    }
                    let c = arg_types[i].copy();
                    out.push(c);
                    i = i + 1;
                }
                proof {
                    assert(decreases_to!(*self => (*self)->Function_return_type));
                }
                let ret = (**return_type).copy();
                let r = DataType::Function { arg_types: out, return_type: Box::new(ret) };
                proof {
                    lemma_dtm_function(r);
                    lemma_dtm_function(*self);
                    assert(dtm_seq(out@) =~= dtm_seq(arg_types@));
                }
                r
            },
        }
    }
}

/// Whether two data types are the same type.
pub fn data_type_eq(a: &DataType, b: &DataType) -> (r: bool)
    ensures
        r == (dtm(*a) == dtm(*b)),
    decreases a,
{
    match (a, b) {
        (DataType::Bool, DataType::Bool) => true,
        (DataType::Int64, DataType::Int64) => true,
        (DataType::Text, DataType::Text) => true,
        (DataType::Decimal { precision: p1, scale: s1 }, DataType::Decimal { precision: p2, scale: s2 }) => *p1 == *p2
            && *s1 == *s2,
        (DataType::Float64, DataType::Float64) => true,
        (DataType::Bytes, DataType::Bytes) => true,
        (DataType::Date, DataType::Date) => true,
        (DataType::Timestamp { with_timezone: w1 }, DataType::Timestamp { with_timezone: w2 }) => *w1 == *w2,
        (DataType::Uuid, DataType::Uuid) => true,
        (DataType::Json, DataType::Json) => true,
        (DataType::Tensor { dtype: d1, shape: s1 }, DataType::Tensor { dtype: d2, shape: s2 }) => *d1 == *d2 && dims_eq(
            &s1.dims,
            &s2.dims,
        ),
        (DataType::Model { name: n1 }, DataType::Model { name: n2 }) => str_eq(n1.as_str(), n2.as_str()),
        (DataType::Function { arg_types: a1, return_type: r1 }, DataType::Function { arg_types: a2, return_type: r2 }) => {
            proof {
                lemma_dtm_function(*a);
                lemma_dtm_function(*b);
            }
            if a1.len() != a2.len() {
                assert(dtm_seq(a1@).len() != dtm_seq(a2@).len());
                return false;
            }
            let mut i: usize = 0;
            while i < a1.len()
                invariant
                    *a == (DataType::Function { arg_types: *a1, return_type: *r1 }),
                    *b == (DataType::Function { arg_types: *a2, return_type: *r2 }),
                    a1@.len() == a2@.len(),
                    i <= a1@.len(),
                    forall|k: int| 0 <= k < i ==> dtm(#[trigger] a1@[k]) == dtm(a2@[k]),
                decreases a1@.len() - i,
            {
                proof {
                    let w = (*a)->Function_arg_types;
                    assert(decreases_to!(*a => (*a)->Function_arg_types));
                    assert(decreases_to!(w => w@));
                    assert(decreases_to!(w@ => w@[i as int]));
                }
                if !data_type_eq(&a1[i], &a2[i]) {
                    proof {
                        lemma_dtm_function(*a);
                        lemma_dtm_function(*b);
                    }
                    assert(dtm_seq(a1@)[i as int] != dtm_seq(a2@)[i as int]);
                    return false;
                }
                i = i + 1;
            }
            assert(dtm_seq(a1@) =~= dtm_seq(a2@));
            proof {
                assert(decreases_to!(*a => (*a)->Function_return_type));
            }
            data_type_eq(&**r1, &**r2)
        },
        _ => false,
    }
}

} // verus!
