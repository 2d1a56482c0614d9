use vstd::prelude::*;

verus! {

/// A switch parameter: a single boolean edited by the UI and read by
/// processors between passes.
pub struct BoolParam {
    value: bool,
}

impl BoolParam {
    pub closed spec fn value_spec(&self) -> bool {
        self.value
    }

    pub fn new(default: bool) -> (p: BoolParam)
        ensures
            p.value_spec() == default,
    {
        BoolParam { value: default }
    }

    pub fn get(&self) -> (r: bool)
        ensures
            r == self.value_spec(),
    {
        self.value
    }

    pub fn set(&mut self, val: bool)
        ensures
            final(self).value_spec() == val,
    {
        self.value = val;
    }
}

/// A spin-box parameter: a 32-bit signed integer.
pub struct IntParam {
    value: i32,
}

impl IntParam {
    pub closed spec fn value_spec(&self) -> i32 {
        self.value
    }

    pub fn new(default: i32) -> (p: IntParam)
        ensures
            p.value_spec() == default,
    {
        IntParam { value: default }
    }

    pub fn get(&self) -> (r: i32)
        ensures
            r == self.value_spec(),
    {
        self.value
    }

    pub fn set(&mut self, val: i32)
        ensures
            final(self).value_spec() == val,
    {
        self.value = val;
    }

    /// Stores `val` and hands back the previous value; the UI compares the
    /// two to suppress a redundant rerender.
    pub fn swap(&mut self, val: i32) -> (prev: i32)
        ensures
            prev == old(self).value_spec(),
            final(self).value_spec() == val,
            prev == val ==> final(self).value_spec() == old(self).value_spec(),
    {
        let prev = self.value;
        self.value = val;
        prev
    }
}

/// The scalar kinds a ranged parameter can hold. The clamping logic only
/// needs a strict comparison; `lt` must agree with `lt_spec`, and `lt_spec`
/// must be irreflexive (no value is below itself).
pub trait ParamScalar: Sized + Copy {
    spec fn lt_spec(self, other: Self) -> bool;

    proof fn lt_irreflexive(x: Self)
        ensures
            !Self::lt_spec(x, x),
    ;

    fn lt(&self, other: &Self) -> (r: bool)
        ensures
            r == self.lt_spec(*other),
    ;
}

impl ParamScalar for i32 {
    open spec fn lt_spec(self, other: i32) -> bool {
        self < other
    }

    proof fn lt_irreflexive(x: i32) {
    }

    fn lt(&self, other: &i32) -> (r: bool) {
        *self < *other
    }
}

impl ParamScalar for i64 {
    open spec fn lt_spec(self, other: i64) -> bool {
        self < other
    }

    proof fn lt_irreflexive(x: i64) {
    }

    fn lt(&self, other: &i64) -> (r: bool) {
        *self < *other
    }
}

/// What a ranged parameter's readers see: `internal` clamped to the hard
/// bounds, the lower bound winning when it applies.
pub open spec fn coerce_spec<T: ParamScalar>(
    internal: T,
    hard_min: Option<T>,
    hard_max: Option<T>,
) -> T {
    if hard_min is Some && internal.lt_spec(hard_min->0) {
        hard_min->0
    } else if hard_max is Some && (hard_max->0).lt_spec(internal) {
        hard_max->0
    } else {
        internal
    }
}

/// A ranged parameter: `{min, max}` are UI hints only; the optional
/// `{hard_min, hard_max}` are enforced as clamps. Readers see the coerced
/// value.
pub struct RangedParam<T: ParamScalar> {
    min: T,
    max: T,
    hard_min: Option<T>,
    hard_max: Option<T>,
    internal: T,
    coerced: T,
}

impl<T: ParamScalar> RangedParam<T> {
    pub closed spec fn min_spec(&self) -> T {
        self.min
    }

    pub closed spec fn max_spec(&self) -> T {
        self.max
    }

    pub closed spec fn hard_min_spec(&self) -> Option<T> {
        self.hard_min
    }

    pub closed spec fn hard_max_spec(&self) -> Option<T> {
        self.hard_max
    }

    pub closed spec fn internal_spec(&self) -> T {
        self.internal
    }

    /// The coerced value that `get` returns.
    pub closed spec fn get_spec(&self) -> T {
        self.coerced
    }

    /// Well-formedness: the hard bounds are not inverted, and the stored
    /// coerced value is in step with the stored internal value.
    pub open spec fn wf(&self) -> bool {
        &&& !(self.hard_min_spec() is Some && self.hard_max_spec() is Some
            && (self.hard_max_spec()->0).lt_spec(self.hard_min_spec()->0))
        &&& self.get_spec() == coerce_spec(
            self.internal_spec(),
            self.hard_min_spec(),
            self.hard_max_spec(),
        )
    }

    /// `hard_max < hard_min` is a programming error; callers must not ask
    /// for inverted hard bounds.
    pub fn new(default: T, min: T, max: T, hard_min: Option<T>, hard_max: Option<T>) -> (p:
        RangedParam<T>)
        requires
            !(hard_min is Some && hard_max is Some && (hard_max->0).lt_spec(hard_min->0)),
        ensures
            p.wf(),
            p.min_spec() == min,
            p.max_spec() == max,
            p.hard_min_spec() == hard_min,
            p.hard_max_spec() == hard_max,
            p.internal_spec() == default,
            p.get_spec() == coerce_spec(default, hard_min, hard_max),
    {
        let mut p = RangedParam { min, max, hard_min, hard_max, internal: default, coerced: default };
        p.coerce();
        p
    }

    /// Recomputes the stored coerced value from the stored internal value.
    fn coerce(&mut self)
        ensures
            final(self).min_spec() == old(self).min_spec(),
            final(self).max_spec() == old(self).max_spec(),
            final(self).hard_min_spec() == old(self).hard_min_spec(),
            final(self).hard_max_spec() == old(self).hard_max_spec(),
            final(self).internal_spec() == old(self).internal_spec(),
            final(self).get_spec() == coerce_spec(
                old(self).internal_spec(),
                old(self).hard_min_spec(),
                old(self).hard_max_spec(),
            ),
    {
        match self.hard_min {
            Some(m) => {
                if self.internal.lt(&m) {
                    self.coerced = m;
                    return;
                }
            },
            None => {},
        }
        match self.hard_max {
            Some(m) => {
                if m.lt(&self.internal) {
                    self.coerced = m;
                    return;
                }
            },
            None => {},
        }
        self.coerced = self.internal;
    }

    pub fn min(&self) -> (r: T)
        ensures
            r == self.min_spec(),
    {
        self.min
    }

    pub fn max(&self) -> (r: T)
        ensures
            r == self.max_spec(),
    {
        self.max
    }

    pub fn get(&self) -> (r: T)
        ensures
            r == self.get_spec(),
    {
        self.coerced
    }

    pub fn set(&mut self, val: T)
        requires
            old(self).wf(),
        ensures
            final(self).wf(),
            final(self).min_spec() == old(self).min_spec(),
            final(self).max_spec() == old(self).max_spec(),
            final(self).hard_min_spec() == old(self).hard_min_spec(),
            final(self).hard_max_spec() == old(self).hard_max_spec(),
            final(self).internal_spec() == val,
            final(self).get_spec() == coerce_spec(
                val,
                old(self).hard_min_spec(),
                old(self).hard_max_spec(),
            ),
    {
        self.internal = val;
        self.coerce();
    }

    /// Stores `val` and hands back the previous coerced value. When the
    /// previous coerced value already equals `val`, the visible value does
    /// not change, so the UI may skip the rerender.
    pub fn swap(&mut self, val: T) -> (prev: T)
        requires
            old(self).wf(),
        ensures
            prev == old(self).get_spec(),
            final(self).wf(),
            final(self).min_spec() == old(self).min_spec(),
            final(self).max_spec() == old(self).max_spec(),
            final(self).hard_min_spec() == old(self).hard_min_spec(),
            final(self).hard_max_spec() == old(self).hard_max_spec(),
            final(self).internal_spec() == val,
            final(self).get_spec() == coerce_spec(
                val,
                old(self).hard_min_spec(),
                old(self).hard_max_spec(),
            ),
            prev == val ==> final(self).get_spec() == old(self).get_spec(),
    {
        let prev = self.coerced;
        self.internal = val;
        self.coerce();
        proof {
            if prev == val {
                lemma_coerce_of_coerced(
                    old(self).internal_spec(),
                    old(self).hard_min_spec(),
                    old(self).hard_max_spec(),
                );
            }
        }
        prev
    }
}

/// Coercion is idempotent: a value that was already coerced against a pair
/// of non-inverted hard bounds is left unchanged by a second coercion. This
/// is what lets the UI treat `swap(v) == v` as proof that no visible change
/// happened and suppress the rerender.
pub proof fn lemma_coerce_of_coerced<T: ParamScalar>(
    internal: T,
    hard_min: Option<T>,
    hard_max: Option<T>,
)
    requires
        !(hard_min is Some && hard_max is Some && (hard_max->0).lt_spec(hard_min->0)),
    ensures
        coerce_spec(coerce_spec(internal, hard_min, hard_max), hard_min, hard_max)
            == coerce_spec(internal, hard_min, hard_max),
{
    let c = coerce_spec(internal, hard_min, hard_max);
    if hard_min is Some && internal.lt_spec(hard_min->0) {
        T::lt_irreflexive(hard_min->0);
    } else if hard_max is Some && (hard_max->0).lt_spec(internal) {
        T::lt_irreflexive(hard_max->0);
    } else {
        if hard_min is Some {
            T::lt_irreflexive(hard_min->0);
        }
        if hard_max is Some {
            T::lt_irreflexive(hard_max->0);
        }
    }
}

} // verus!
