//! Fixed-dimension vectors: the dimension is a type parameter, so vectors
//! combined componentwise always agree in length.
use vstd::prelude::*;

verus! {

broadcast use vstd::array::group_array_axioms;

/// The first entries of `base` (as many as fit in `len`), followed by copies
/// of `fill` up to `len` entries in all.
pub open spec fn padded<T>(base: Seq<T>, fill: T, len: nat) -> Seq<T> {
    Seq::new(len, |i: int| if i < base.len() { base[i] } else { fill })
}

/// A point or direction in `L`-dimensional space, with coordinates of type `T`.
///
/// The dimension is part of the type, so two vectors combined componentwise
/// always have the same number of coordinates.
#[derive(Clone, Copy, Debug)]
pub struct NdVec<T, const L: usize> {
    components: [T; L],
}

/// Another name for `NdVec`.
pub type FixedVector<T, const L: usize> = NdVec<T, L>;

impl<T, const L: usize> View for NdVec<T, L> {
    type V = Seq<T>;

    closed spec fn view(&self) -> Seq<T> {
        self.components@
    }
}

/// Padding then reading the coordinates back gives the leading values of the
/// source unchanged (as many as fit) and `default` in every slot past its end.
pub proof fn lemma_pad_components<T, const L: usize>(base: Seq<T>, default: T, v: NdVec<T, L>)
    requires
        v@ == padded(base, default, L as nat),
    ensures
        v@.len() == L,
        forall|i: int| 0 <= i < L && i < base.len() ==> #[trigger] v@[i] == base[i],
        forall|i: int| base.len() <= i < L ==> #[trigger] v@[i] == default,
{
}

impl<T: Copy, const L: usize> NdVec<T, L> {
    /// The vector whose coordinates all equal `zero`: the origin, when `zero`
    /// is the scalar zero.
    pub fn new(zero: T) -> (r: Self)
        ensures
            r@ == Seq::new(L as nat, |i: int| zero),
    {
        let r = NdVec { components: [zero; L] };
        assert(r@ =~= Seq::new(L as nat, |i: int| zero));
        r
    }

    /// Lifts `base` into `L` dimensions: its leading coordinates are kept (as
    /// many as fit) and every slot past its end holds `default`.
    pub fn pad(base: &[T], default: T) -> (r: Self)
        ensures
            r@ == padded(base@, default, L as nat),
    {
        let mut components = [default; L];
        let n: usize = if base.len() < L { base.len() } else { L };
        let mut i: usize = 0;
        while i < n
            invariant
                i <= n,
                n <= L,
                n <= base@.len(),
                n == L || n == base@.len(),
                forall|j: int| 0 <= j < L ==> #[trigger] components@[j] == (if j < i { base@[j] } else { default }),
            decreases n - i,
        {
            components[i] = base[i];
            i = i + 1;
        }
        let r = NdVec { components };
        assert(r@ =~= padded(base@, default, L as nat));
        r
    }

    /// The coordinates, in order.
    pub fn components(&self) -> (r: &[T])
        ensures
            r@ == self@,
            r@.len() == L,
    {
        self.components.as_slice()
    }

    /// The vector whose coordinate `i` is `f` applied to coordinate `i` of `self`.
    pub fn map<F: Fn(T) -> T>(&self, f: F) -> (r: Self)
        requires
            forall|i: int| 0 <= i < L ==> f.requires((self@[i],)),
        ensures
            r@.len() == L,
            forall|i: int| 0 <= i < L ==> f.ensures((self@[i],), #[trigger] r@[i]),
    {
        let mut components = self.components;
        let mut i: usize = 0;
        while i < L
            invariant
                i <= L,
                forall|j: int| 0 <= j < L ==> f.requires((self@[j],)),
                forall|j: int| i <= j < L ==> #[trigger] components@[j] == self@[j],
                forall|j: int| 0 <= j < i ==> f.ensures((self@[j],), #[trigger] components@[j]),
            decreases L - i,
        {
            assert(f.requires((self@[i as int],)));
            let c = f(self.components[i]);
            components[i] = c;
            i = i + 1;
        }
        NdVec { components }
    }

    /// The vector whose coordinate `i` is `f` applied to coordinate `i` of
    /// `self` and coordinate `i` of `other`.
    pub fn zip_with<F: Fn(T, T) -> T>(&self, other: &Self, f: F) -> (r: Self)
        requires
            forall|i: int| 0 <= i < L ==> f.requires((self@[i], other@[i])),
        ensures
            r@.len() == L,
            forall|i: int| 0 <= i < L ==> f.ensures((self@[i], other@[i]), #[trigger] r@[i]),
    {
        let mut components = self.components;
        let mut i: usize = 0;
        while i < L
            invariant
                i <= L,
                forall|j: int| 0 <= j < L ==> f.requires((self@[j], other@[j])),
                forall|j: int| i <= j < L ==> #[trigger] components@[j] == self@[j],
                forall|j: int| 0 <= j < i ==> f.ensures((self@[j], other@[j]), #[trigger] components@[j]),
            decreases L - i,
        {
            assert(f.requires((self@[i as int], other@[i as int])));
            let c = f(self.components[i], other.components[i]);
            components[i] = c;
            i = i + 1;
        }
        NdVec { components }
    }
}

} // verus!
