//! Store path rewriting for building outside the Nix sandbox.
//!
//! A `.drv` names three kinds of store paths: its outputs and those of its dependencies, which
//! are rewritten to places in the cache, and the toolchain's, which stay as they are.
use crate::strmap;
use crate::strmap::StrMap;
use crate::text;
use vstd::prelude::*;

verus! {

/// Substitutions of paths, applied to what a build sees.
pub struct PathRewriter {
    rewrites: Vec<(String, String)>,
}

impl View for PathRewriter {
    type V = Seq<(Seq<char>, Seq<char>)>;

    closed spec fn view(&self) -> Seq<(Seq<char>, Seq<char>)> {
        self.rewrites.deep_view()
    }
}

/// `s` after all substitutions, one after the other.
pub open spec fn rewritten(rw: Seq<(Seq<char>, Seq<char>)>, s: Seq<char>) -> Seq<char>
    decreases rw.len(),
{
    if rw.len() == 0 {
        s
    } else {
        text::replaced(rewritten(rw.drop_last(), s), rw.last().0, rw.last().1)
    }
}

/// What no substitution is for passes through untouched.
pub proof fn unmapped_passes_through(rw: Seq<(Seq<char>, Seq<char>)>, s: Seq<char>)
    requires
        forall|i: int|
            0 <= i < rw.len() ==> (#[trigger] rw[i]).0.len() > 0 && !text::occurs(s, rw[i].0),
    ensures
        rewritten(rw, s) == s,
    decreases rw.len(),
{
    if rw.len() > 0 {
        let r = rw.drop_last();
        assert forall|i: int| 0 <= i < r.len() implies (#[trigger] r[i]).0.len() > 0
            && !text::occurs(s, r[i].0) by {
            assert(r[i] == rw[i]);
        }
        unmapped_passes_through(r, s);
        assert(rw.last() == rw[rw.len() - 1]);
        text::occurs_is_found(s, rw.last().0);
    }
}

impl PathRewriter {
    /// No substitution.
    pub fn new() -> (r: Self)
        ensures
            r@ == Seq::<(Seq<char>, Seq<char>)>::empty(),
    {
        let r = PathRewriter { rewrites: Vec::new() };
        assert(r@ =~= Seq::<(Seq<char>, Seq<char>)>::empty());
        r
    }

    /// Adds a substitution behind the others.
    pub fn add(&mut self, from: String, to: String)
        ensures
            final(self)@ == old(self)@.push((from@, to@)),
    {
        let ghost before = self.rewrites.deep_view();
        self.rewrites.push((from, to));
        assert(self.rewrites.deep_view() =~= before.push((from@, to@)));
    }

    /// Applies all substitutions to a string.
    pub fn rewrite(&self, input: &str) -> (r: String)
        ensures
            r@ == rewritten(self@, input@),
    {
        let mut result = input.to_owned();
        assert(self@.take(0) =~= Seq::<(Seq<char>, Seq<char>)>::empty());
        for i in 0..self.rewrites.len()
            invariant
                self@ == self.rewrites.deep_view(),
                result@ == rewritten(self@.take(i as int), input@),
        {
            assert(self@.take(i + 1).drop_last() =~= self@.take(i as int));
            result = text::replace(
                result.as_str(),
                self.rewrites[i].0.as_str(),
                self.rewrites[i].1.as_str(),
            );
        }
        assert(self@.take(self@.len() as int) =~= self@);
        result
    }

    /// Applies all substitutions to the values of environment variables.
    pub fn rewrite_env(&self, env: &StrMap<String>) -> (r: StrMap<String>)
        ensures
            r@ == env@.map_values(|v: Seq<char>| rewritten(self@, v)),
    {
        let mut out: StrMap<String> = StrMap::new();
        let n: usize = env.len();
        let ghost all = strmap::listing(env@);
        let ghost f = |v: Seq<char>| rewritten(self@, v);
        for i in 0..n
            invariant
                n == all.len(),
                all == strmap::listing(env@),
                strmap::ascending(all),
                f == (|v: Seq<char>| rewritten(self@, v)),
                out@ == strmap::as_map(all.take(i as int)).map_values(f),
        {
            out.insert(env.key(i).clone(), self.rewrite(env.value(i).as_str()));
            proof {
                strmap::take_map(all, i as int);
                assert(out@ =~= strmap::as_map(all.take(i + 1)).map_values(f));
            }
        }
        assert(all.take(n as int) =~= all);
        out
    }
}

/// Rewriting by some pairs and then by others is rewriting by all of them.
pub proof fn rewriting_goes_in_order(
    a: Seq<(Seq<char>, Seq<char>)>,
    b: Seq<(Seq<char>, Seq<char>)>,
    s: Seq<char>,
)
    ensures
        rewritten(a + b, s) == rewritten(b, rewritten(a, s)),
    decreases b.len(),
{
    if b.len() == 0 {
        assert(a + b =~= a);
    } else {
        rewriting_goes_in_order(a, b.drop_last(), s);
        assert((a + b).drop_last() =~= a + b.drop_last());
        assert((a + b).last() == b.last());
    }
}

/// A path below a mapped one comes to lie below the place that it is mapped to.
pub proof fn mapped_paths_move(from: Seq<char>, to: Seq<char>, rest: Seq<char>)
    requires
        from.len() > 0,
        !text::occurs(rest, from),
    ensures
        rewritten(seq![(from, to)], from + rest) == to + rest,
{
    let rw = seq![(from, to)];
    let s = from + rest;
    assert(rw.drop_last() =~= Seq::<(Seq<char>, Seq<char>)>::empty());
    assert(s.subrange(0, from.len() as int) =~= from);
    assert(text::has_at(s, 0, from));
    text::replacing_goes_on(s, from, to, 0);
    assert(s.skip(from.len() as int) =~= rest);
    text::replacing_leaves_others(rest, from, to);
    assert(s.take(0) + to + rest =~= to + rest);
    reveal_with_fuel(rewritten, 2);
}

} // verus!
