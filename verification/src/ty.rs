//! What the check asks of a type.
use vstd::prelude::*;
use crate::ast::{Attribute, Lit, Ty};

verus! {

/// Whether `t` or one of the types it is built from is drop-protected.
pub open spec fn spec_mentions_protected(t: Ty) -> bool
    decreases t, 1nat,
{
    t.protected || spec_any_mentions_protected(t.params@)
}

/// Whether one of `ts` mentions a drop-protected type.
pub open spec fn spec_any_mentions_protected(ts: Seq<Ty>) -> bool
    decreases ts, 0nat,
{
    if ts.len() == 0 {
        false
    } else {
        spec_any_mentions_protected(ts.drop_last()) || spec_mentions_protected(ts.last())
    }
}

/// One of `ts` mentions a protected type exactly when some type of `ts`, at
/// any position, does.
pub proof fn lemma_any_mentions_protected(ts: Seq<Ty>)
    ensures
        spec_any_mentions_protected(ts) <==> exists|i: int| 0 <= i < ts.len() && spec_mentions_protected(#[trigger] ts[i]),
    decreases ts.len(),
{
    if ts.len() > 0 {
        let init = ts.drop_last();
        lemma_any_mentions_protected(init);
        if spec_any_mentions_protected(init) {
            let i = choose|i: int| 0 <= i < init.len() && spec_mentions_protected(#[trigger] init[i]);
            assert(ts[i] == init[i]);
        }
        if exists|i: int| 0 <= i < ts.len() && spec_mentions_protected(#[trigger] ts[i]) {
            let i = choose|i: int| 0 <= i < ts.len() && spec_mentions_protected(#[trigger] ts[i]);
            if i < ts.len() - 1 {
                assert(init[i] == ts[i]);
            }
        }
    }
}

/// A type mentions a protected type exactly when it is protected itself or
/// one of the types it is built from, at any position, mentions one.
pub proof fn law_mentions_protected_parts(t: Ty)
    ensures
        spec_mentions_protected(t) <==> (t.protected || exists|i: int| 0 <= i < t.params@.len()
            && spec_mentions_protected(#[trigger] t.params@[i])),
        forall|i: int| 0 <= i < t.params@.len() && spec_mentions_protected(#[trigger] t.params@[i]) ==> spec_mentions_protected(t),
{
    lemma_any_mentions_protected(t.params@);
}

} // verus!


verus! {

/// Whether the attribute list of a function allows it to drop values whose
/// type prints as `repr`: it holds an attribute `#[allow_drop = "<repr>"]`.
pub open spec fn spec_allows_drop(attrs: Seq<Attribute>, repr: Seq<char>) -> bool {
    exists|i: int|
        0 <= i < attrs.len() && match #[trigger] attrs[i] {
            Attribute::NameValue(name, Lit::Str(value)) => name@ == "allow_drop"@ && value@ == repr,
            _ => false,
        }
}

/// Whether a function with attributes `attrs` may drop a value of type `t`.
pub open spec fn spec_can_drop(attrs: Seq<Attribute>, t: Ty) -> bool {
    spec_allows_drop(attrs, t.repr@)
}

impl Ty {
    /// Whether this type, or one of the types it is built from, is
    /// drop-protected.
    pub fn mentions_protected(&self) -> (r: bool)
        ensures
            r == spec_mentions_protected(*self),
        decreases *self,
    {
        if self.protected {
            return true;
        }
        let mut i: usize = 0;
        while i < self.params.len()
            invariant
                i <= self.params.len(),
                spec_any_mentions_protected(self.params@.take(i as int)) == false,
            decreases self.params.len() - i,
        {
            assert(self.params@.take(i as int + 1).drop_last() =~= self.params@.take(i as int));
            if self.params[i].mentions_protected() {
                assert(spec_any_mentions_protected(self.params@.take(i as int + 1)));
                assert(spec_any_mentions_protected(self.params@)) by {
                    lemma_any_mentions_prefix(self.params@, i as int + 1);
                }
                return true;
            }
            i = i + 1;
        }
        assert(self.params@.take(i as int) =~= self.params@);
        false
    }
}

/// A prefix that mentions a protected type makes the whole sequence mention one.
pub proof fn lemma_any_mentions_prefix(ts: Seq<Ty>, n: int)
    requires
        0 <= n <= ts.len(),
        spec_any_mentions_protected(ts.take(n)),
    ensures
        spec_any_mentions_protected(ts),
    decreases ts.len(),
{
    if n < ts.len() {
        assert(ts.drop_last().take(n) =~= ts.take(n));
        lemma_any_mentions_prefix(ts.drop_last(), n);
    } else {
        assert(ts.take(n) =~= ts);
    }
}

/// Whether a function with attributes `attrs` may drop a value of type `t`.
pub fn can_drop(attrs: &Vec<Attribute>, t: &Ty) -> (r: bool)
    ensures
        r == spec_can_drop(attrs@, *t),
{
    let key = String::from_str("allow_drop");
    let mut i: usize = 0;
    while i < attrs.len()
        invariant
            i <= attrs.len(),
            key@ == "allow_drop"@,
            forall|j: int| 0 <= j < i ==> match #[trigger] attrs@[j] {
                Attribute::NameValue(name, Lit::Str(value)) => !(name@ == "allow_drop"@ && value@ == t.repr@),
                _ => true,
            },
        decreases attrs.len() - i,
    {
        match &attrs[i] {
            Attribute::NameValue(name, Lit::Str(value)) => {
                if *name == key && *value == t.repr {
                    return true;
                }
            },
            _ => {},
        }
        i = i + 1;
    }
    false
}

} // verus!
