//! The component container: registration of component types keyed by a
//! process-unique type tag, the dependency graph recorded during a
//! concurrent build with cycle rejection, the store resolved from it, and
//! tear-down in reverse-dependency order — a component always dies before
//! anything it depends on.

use vstd::prelude::*;

use crate::config::ConfigError;

verus! {

/// A registered component type: its stable name and process-unique tag.
pub struct ComponentInfo {
    pub name: String,
    pub type_tag: u64,
}

impl ComponentInfo {
    pub fn new(name: String, type_tag: u64) -> (r: Self)
        ensures
            r.name == name,
            r.type_tag == type_tag,
    {
        ComponentInfo { name, type_tag }
    }
}

impl Clone for ComponentInfo {
    fn clone(&self) -> (r: Self)
        ensures
            r == *self,
    {
        ComponentInfo { name: self.name.clone(), type_tag: self.type_tag }
    }
}

/// Why a container cannot be built.
#[derive(Debug)]
pub enum ComponentError {
    /// Adding this dependency would close a cycle.
    DependencyCycle { source_component: String, dependency_component: String },
    /// A factory failed; the message carries its words.
    InitializationFailed { message: String },
    /// The configuration was missing or ill-typed.
    ConfigurationError { source: ConfigError },
    /// A factory resolved a type that was never registered.
    UnknownComponent { source_component: String, dependency_component: String },
}

/// Wrap a factory's failure message.
pub fn init_err(message: String) -> (r: ComponentError)
    ensures
        r is InitializationFailed && r->InitializationFailed_message == message,
{
    ComponentError::InitializationFailed { message }
}

/// Is the pair `(a, b)` recorded?
pub open spec fn pair_in(ps: Seq<(u64, u64)>, a: u64, b: u64) -> bool {
    exists|i: int| 0 <= i < ps.len() && #[trigger] ps[i] == (a, b)
}

/// Is this tag registered?
pub open spec fn tag_in(tags: Seq<u64>, t: u64) -> bool {
    exists|i: int| 0 <= i < tags.len() && #[trigger] tags[i] == t
}

/// The dependency graph of one container build: the registered tags and the
/// dependency relation, kept transitively closed, so that `(a, b)` recorded
/// means component `a` depends on component `b`, directly or not.
pub struct DependencyDag {
    pub tags: Vec<u64>,
    pub closure: Vec<(u64, u64)>,
}

impl DependencyDag {
    /// Tags are distinct; the relation stays within them, transitively
    /// closed, and irreflexive — no component reaches itself.
    pub open spec fn well_formed(&self) -> bool {
        &&& forall|i: int, j: int|
            0 <= i < j < self.tags@.len() ==> #[trigger] self.tags@[i] != #[trigger] self.tags@[j]
        &&& forall|i: int|
            0 <= i < self.closure@.len() ==> tag_in(tags_of(self), (#[trigger] self.closure@[i]).0)
                && tag_in(tags_of(self), self.closure@[i].1)
        &&& forall|x: u64, y: u64, z: u64|
            pair_in(self.closure@, x, y) && pair_in(self.closure@, y, z) ==> pair_in(
                self.closure@,
                x,
                z,
            )
        &&& forall|x: u64| !pair_in(self.closure@, x, x)
    }

    /// The graph over the registered tags, with nothing depending on
    /// anything yet.
    pub fn new(tags: Vec<u64>) -> (r: Self)
        requires
            forall|i: int, j: int|
                0 <= i < j < tags@.len() ==> #[trigger] tags@[i] != #[trigger] tags@[j],
        ensures
            r.well_formed(),
            r.tags == tags,
            r.closure@.len() == 0,
    {
        let r = DependencyDag { tags, closure: Vec::new() };
        proof {
            assert forall|x: u64, y: u64| !pair_in(r.closure@, x, y) by {}
        }
        r
    }

    /// Does `a` depend on `b`, directly or transitively?
    pub fn depends_on(&self, a: u64, b: u64) -> (r: bool)
        ensures
            r == pair_in(self.closure@, a, b),
    {
        let n = self.closure.len();
        let mut i: usize = 0;
        while i < n
            invariant
                i <= n,
                n == self.closure@.len(),
                forall|k: int| 0 <= k < i ==> #[trigger] self.closure@[k] != (a, b),
            decreases n - i,
        {
            let p = self.closure[i];
            if p.0 == a && p.1 == b {
                return true;
            }
            i += 1;
        }
        false
    }

    /// Is this tag registered?
    pub fn is_registered(&self, t: u64) -> (r: bool)
        ensures
            r == tag_in(self.tags@, t),
    {
        let n = self.tags.len();
        let mut i: usize = 0;
        while i < n
            invariant
                i <= n,
                n == self.tags@.len(),
                forall|k: int| 0 <= k < i ==> #[trigger] self.tags@[k] != t,
            decreases n - i,
        {
            if self.tags[i] == t {
                return true;
            }
            i += 1;
        }
        false
    }

    /// Record that `source` resolved `dependency`. An unregistered
    /// dependency fails; an edge that would close a cycle fails; otherwise
    /// the relation grows by exactly the pairs the new edge forces: anything
    /// at or upstream of `source` now depends on anything at or downstream
    /// of `dependency`.
    pub fn add_edge(
        &mut self,
        source: u64,
        dependency: u64,
        source_name: &String,
        dependency_name: &String,
    ) -> (r: Result<(), ComponentError>)
        requires
            old(self).well_formed(),
            tag_in(old(self).tags@, source),
        ensures
            final(self).well_formed(),
            final(self).tags == old(self).tags,
            !tag_in(old(self).tags@, dependency) ==> r is Err && r->Err_0 is UnknownComponent && (
            r->Err_0->UnknownComponent_source_component)@ == source_name@ && (
            r->Err_0->UnknownComponent_dependency_component)@ == dependency_name@ && *final(self)
                == *old(self),
            tag_in(old(self).tags@, dependency) && (dependency == source || pair_in(
                old(self).closure@,
                dependency,
                source,
            )) ==> r is Err && r->Err_0 is DependencyCycle && (
            r->Err_0->DependencyCycle_source_component)@ == source_name@ && (
            r->Err_0->DependencyCycle_dependency_component)@ == dependency_name@ && *final(self)
                == *old(self),
            tag_in(old(self).tags@, dependency) && dependency != source && !pair_in(
                old(self).closure@,
                dependency,
                source,
            ) ==> r is Ok && (forall|x: u64, y: u64|
                #![trigger pair_in(final(self).closure@, x, y)]
                pair_in(final(self).closure@, x, y) == (pair_in(old(self).closure@, x, y) || ((x
                    == source || pair_in(old(self).closure@, x, source)) && (y == dependency
                    || pair_in(old(self).closure@, dependency, y))))),
    {
        if !self.is_registered(dependency) {
            return Err(
                ComponentError::UnknownComponent {
                    source_component: source_name.clone(),
                    dependency_component: dependency_name.clone(),
                },
            );
        }
        if dependency == source || self.depends_on(dependency, source) {
            return Err(
                ComponentError::DependencyCycle {
                    source_component: source_name.clone(),
                    dependency_component: dependency_name.clone(),
                },
            );
        }
        let ghost old_closure = self.closure@;
        let ghost old_tags = self.tags@;
        let mut added: Vec<(u64, u64)> = Vec::new();
        added.push((source, dependency));
        proof {
            assert(added@[0] == (source, dependency));
            assert(pair_in(added@, source, dependency));
        }
        let n = self.closure.len();
        // Everything upstream of `source` now depends on `dependency`.
        let mut i: usize = 0;
        while i < n
            invariant
                i <= n,
                n == self.closure@.len(),
                *self == *old(self),
                old_closure == self.closure@,
                pair_in(added@, source, dependency),
                forall|k: int|
                    0 <= k < added@.len() ==> is_forced(
                        old_closure,
                        source,
                        dependency,
                        (#[trigger] added@[k]).0,
                        added@[k].1,
                    ),
                forall|k: int|
                    0 <= k < i && (#[trigger] old_closure[k]).1 == source ==> pair_in(
                        added@,
                        old_closure[k].0,
                        dependency,
                    ),
            decreases n - i,
        {
            let p = self.closure[i];
            let ghost pre = added@;
            if p.1 == source {
                added.push((p.0, dependency));
            }
            proof {
                lemma_pair_in_grown(pre, added@);
                if p.1 == source {
                    assert(added@[added@.len() - 1] == (p.0, dependency));
                }
            }
            i += 1;
        }
        // `source` now depends on everything downstream of `dependency`.
        let mut i2: usize = 0;
        while i2 < n
            invariant
                i2 <= n,
                n == self.closure@.len(),
                *self == *old(self),
                old_closure == self.closure@,
                pair_in(added@, source, dependency),
                forall|k: int|
                    0 <= k < added@.len() ==> is_forced(
                        old_closure,
                        source,
                        dependency,
                        (#[trigger] added@[k]).0,
                        added@[k].1,
                    ),
                forall|k: int|
                    0 <= k < n && (#[trigger] old_closure[k]).1 == source ==> pair_in(
                        added@,
                        old_closure[k].0,
                        dependency,
                    ),
                forall|k: int|
                    0 <= k < i2 && (#[trigger] old_closure[k]).0 == dependency ==> pair_in(
                        added@,
                        source,
                        old_closure[k].1,
                    ),
            decreases n - i2,
        {
            let p = self.closure[i2];
            let ghost pre = added@;
            if p.0 == dependency {
                added.push((source, p.1));
            }
            proof {
                lemma_pair_in_grown(pre, added@);
                if p.0 == dependency {
                    assert(added@[added@.len() - 1] == (source, p.1));
                }
            }
            i2 += 1;
        }
        // Everything upstream of `source` now depends on everything
        // downstream of `dependency`.
        let mut i3: usize = 0;
        while i3 < n
            invariant
                i3 <= n,
                n == self.closure@.len(),
                *self == *old(self),
                old_closure == self.closure@,
                pair_in(added@, source, dependency),
                forall|k: int|
                    0 <= k < added@.len() ==> is_forced(
                        old_closure,
                        source,
                        dependency,
                        (#[trigger] added@[k]).0,
                        added@[k].1,
                    ),
                forall|k: int|
                    0 <= k < n && (#[trigger] old_closure[k]).1 == source ==> pair_in(
                        added@,
                        old_closure[k].0,
                        dependency,
                    ),
                forall|k: int|
                    0 <= k < n && (#[trigger] old_closure[k]).0 == dependency ==> pair_in(
                        added@,
                        source,
                        old_closure[k].1,
                    ),
                forall|k: int, l: int|
                    #![trigger old_closure[k], old_closure[l]]
                    0 <= k < i3 && 0 <= l < n && old_closure[k].1 == source && old_closure[l].0
                        == dependency ==> pair_in(added@, old_closure[k].0, old_closure[l].1),
            decreases n - i3,
        {
            let p = self.closure[i3];
            if p.1 == source {
                let mut j: usize = 0;
                while j < n
                    invariant
                        j <= n,
                        i3 < n,
                        n == self.closure@.len(),
                        *self == *old(self),
                        old_closure == self.closure@,
                        p == old_closure[i3 as int],
                        p.1 == source,
                        pair_in(added@, source, dependency),
                        forall|k: int|
                            0 <= k < added@.len() ==> is_forced(
                                old_closure,
                                source,
                                dependency,
                                (#[trigger] added@[k]).0,
                                added@[k].1,
                            ),
                        forall|k: int|
                            0 <= k < n && (#[trigger] old_closure[k]).1 == source ==> pair_in(
                                added@,
                                old_closure[k].0,
                                dependency,
                            ),
                        forall|k: int|
                            0 <= k < n && (#[trigger] old_closure[k]).0 == dependency ==> pair_in(
                                added@,
                                source,
                                old_closure[k].1,
                            ),
                        forall|k: int, l: int|
                            #![trigger old_closure[k], old_closure[l]]
                            0 <= k < i3 && 0 <= l < n && old_closure[k].1 == source
                                && old_closure[l].0 == dependency ==> pair_in(
                                added@,
                                old_closure[k].0,
                                old_closure[l].1,
                            ),
                        forall|l: int|
                            0 <= l < j && (#[trigger] old_closure[l]).0 == dependency ==> pair_in(
                                added@,
                                p.0,
                                old_closure[l].1,
                            ),
                    decreases n - j,
                {
                    let q = self.closure[j];
                    let ghost pre = added@;
                    if q.0 == dependency {
                        added.push((p.0, q.1));
                    }
                    proof {
                        lemma_pair_in_grown(pre, added@);
                        if q.0 == dependency {
                            assert(added@[added@.len() - 1] == (p.0, q.1));
                        }
                    }
                    j += 1;
                }
            }
            proof {
                assert forall|k: int, l: int|
                    #![trigger old_closure[k], old_closure[l]]
                    0 <= k < i3 + 1 && 0 <= l < n && old_closure[k].1 == source
                        && old_closure[l].0 == dependency implies pair_in(
                    added@,
                    old_closure[k].0,
                    old_closure[l].1,
                ) by {}
            }
            i3 += 1;
        }
        let ghost added_seq = added@;
        self.closure.append(&mut added);
        proof {
            assert(self.closure@ == old_closure + added_seq);
            assert forall|x: u64, y: u64|
                #![trigger pair_in(self.closure@, x, y)]
                pair_in(self.closure@, x, y) == (pair_in(old_closure, x, y) || ((x == source
                    || pair_in(old_closure, x, source)) && (y == dependency || pair_in(
                    old_closure,
                    dependency,
                    y,
                )))) by {
                if pair_in(self.closure@, x, y) {
                    let k = choose|k: int|
                        0 <= k < self.closure@.len() && #[trigger] self.closure@[k] == (x, y);
                    if k < old_closure.len() {
                        assert(old_closure[k] == (x, y));
                        assert(pair_in(old_closure, x, y));
                    } else {
                        assert(added_seq[k - old_closure.len()] == (x, y));
                        assert(is_forced(old_closure, source, dependency, x, y));
                    }
                }
                if pair_in(old_closure, x, y) {
                    let k = choose|k: int|
                        0 <= k < old_closure.len() && #[trigger] old_closure[k] == (x, y);
                    assert(self.closure@[k] == (x, y));
                }
                if ((x == source || pair_in(old_closure, x, source)) && (y == dependency
                    || pair_in(old_closure, dependency, y))) {
                    assert(pair_in(added_seq, x, y)) by {
                        if x == source && y == dependency {
                        } else if x == source {
                            let l = choose|l: int|
                                0 <= l < old_closure.len() && #[trigger] old_closure[l] == (
                                dependency,
                                y,
                                );
                        } else if y == dependency {
                            let k = choose|k: int|
                                0 <= k < old_closure.len() && #[trigger] old_closure[k] == (
                                x,
                                source,
                                );
                        } else {
                            let k = choose|k: int|
                                0 <= k < old_closure.len() && #[trigger] old_closure[k] == (
                                x,
                                source,
                                );
                            let l = choose|l: int|
                                0 <= l < old_closure.len() && #[trigger] old_closure[l] == (
                                dependency,
                                y,
                                );
                        }
                    }
                    let k = choose|k: int|
                        0 <= k < added_seq.len() && #[trigger] added_seq[k] == (x, y);
                    assert(self.closure@[old_closure.len() + k] == (x, y));
                }
            }
            lemma_closure_step(old_closure, self.closure@, old_tags, source, dependency);
            assert forall|k: int|
                0 <= k < self.closure@.len() implies tag_in(
                tags_of(self),
                (#[trigger] self.closure@[k]).0,
            ) && tag_in(tags_of(self), self.closure@[k].1) by {
                if k < old_closure.len() {
                    assert(old(self).closure@[k] == self.closure@[k]);
                } else {
                    let pair = added_seq[k - old_closure.len()];
                    assert(is_forced(old_closure, source, dependency, pair.0, pair.1));
                    if pair.0 != source {
                        let w = choose|w: int|
                            0 <= w < old_closure.len() && #[trigger] old_closure[w] == (
                            pair.0,
                            source,
                            );
                        assert(old(self).closure@[w] == old_closure[w]);
                    }
                    if pair.1 != dependency {
                        let w = choose|w: int|
                            0 <= w < old_closure.len() && #[trigger] old_closure[w] == (
                            dependency,
                            pair.1,
                            );
                        assert(old(self).closure@[w] == old_closure[w]);
                    }
                }
            }
        }
        Ok(())
    }
}

/// The registered tags of a graph.
pub open spec fn tags_of(dag: &DependencyDag) -> Seq<u64> {
    dag.tags@
}

/// Is `(x, y)` one of the pairs forced by recording the edge `(s, d)`: `x`
/// is `s` or upstream of it, `y` is `d` or downstream of it?
pub open spec fn is_forced(rel: Seq<(u64, u64)>, s: u64, d: u64, x: u64, y: u64) -> bool {
    (x == s || pair_in(rel, x, s)) && (y == d || pair_in(rel, d, y))
}

/// Recorded pairs survive when the record grows at the end.
proof fn lemma_pair_in_grown(pre: Seq<(u64, u64)>, post: Seq<(u64, u64)>)
    requires
        pre.len() <= post.len(),
        forall|k: int| 0 <= k < pre.len() ==> #[trigger] post[k] == pre[k],
    ensures
        forall|a: u64, b: u64| #[trigger] pair_in(pre, a, b) ==> pair_in(post, a, b),
{
    assert forall|a: u64, b: u64| #[trigger] pair_in(pre, a, b) implies pair_in(post, a, b) by {
        let k = choose|k: int| 0 <= k < pre.len() && #[trigger] pre[k] == (a, b);
        assert(post[k] == (a, b));
    }
}

/// Extending a transitively closed, irreflexive relation by an acyclic edge
/// and the pairs it forces keeps it transitively closed and irreflexive.
proof fn lemma_closure_step(
    old_rel: Seq<(u64, u64)>,
    new_rel: Seq<(u64, u64)>,
    tags: Seq<u64>,
    s: u64,
    d: u64,
)
    requires
        forall|x: u64, y: u64, z: u64|
            pair_in(old_rel, x, y) && pair_in(old_rel, y, z) ==> pair_in(old_rel, x, z),
        forall|x: u64| !pair_in(old_rel, x, x),
        s != d,
        !pair_in(old_rel, d, s),
        forall|x: u64, y: u64|
            #![trigger pair_in(new_rel, x, y)]
            pair_in(new_rel, x, y) == (pair_in(old_rel, x, y) || ((x == s || pair_in(
                old_rel,
                x,
                s,
            )) && (y == d || pair_in(old_rel, d, y)))),
    ensures
        forall|x: u64, y: u64, z: u64|
            pair_in(new_rel, x, y) && pair_in(new_rel, y, z) ==> pair_in(new_rel, x, z),
        forall|x: u64| !pair_in(new_rel, x, x),
{
    assert forall|x: u64, y: u64, z: u64|
        pair_in(new_rel, x, y) && pair_in(new_rel, y, z) implies pair_in(new_rel, x, z) by {
        let xy_old = pair_in(old_rel, x, y);
        let yz_old = pair_in(old_rel, y, z);
        if xy_old && yz_old {
            assert(pair_in(old_rel, x, z));
        } else if !xy_old && yz_old {
            // x reaches s, y is at or below d; y to z stays in the old
            // relation, so d reaches z.
            assert(y == d || pair_in(old_rel, d, y));
            assert(pair_in(old_rel, d, z));
        } else if xy_old && !yz_old {
            assert(y == s || pair_in(old_rel, y, s));
            assert(pair_in(old_rel, x, s));
        } else {
            // Both pairs are new: then d reaches s or equals it, against the
            // cycle check.
            assert(y == d || pair_in(old_rel, d, y));
            assert(y == s || pair_in(old_rel, y, s));
            if y == d && y == s {
                assert(false);
            } else if y == d {
                assert(pair_in(old_rel, d, s));
            } else if y == s {
                assert(pair_in(old_rel, d, s));
            } else {
                assert(pair_in(old_rel, d, s));
            }
        }
    }
    assert forall|x: u64| !pair_in(new_rel, x, x) by {
        if pair_in(new_rel, x, x) && !pair_in(old_rel, x, x) {
            assert(x == s || pair_in(old_rel, x, s));
            assert(x == d || pair_in(old_rel, d, x));
            if x == s && x == d {
            } else if x == s {
                assert(pair_in(old_rel, d, s));
            } else if x == d {
                assert(pair_in(old_rel, d, s));
            } else {
                assert(pair_in(old_rel, d, s));
            }
        }
    }
}

/// How many registered components `t` transitively depends on.
pub open spec fn spec_dep_count(dag: &DependencyDag, t: u64) -> nat {
    dag.tags@.filter(|u: u64| pair_in(dag.closure@, t, u)).len()
}

/// A filter by a weaker predicate keeps at least as many elements.
proof fn lemma_filter_len_mono<A>(s: Seq<A>, p: spec_fn(A) -> bool, q: spec_fn(A) -> bool)
    requires
        forall|x: A| #[trigger] p(x) ==> q(x),
    ensures
        s.filter(p).len() <= s.filter(q).len(),
    decreases s.len(),
{
    reveal(Seq::filter);
    if s.len() > 0 {
        lemma_filter_len_mono(s.drop_last(), p, q);
    }
}

/// And strictly more when some element passes only the weaker one.
proof fn lemma_filter_len_strict<A>(s: Seq<A>, p: spec_fn(A) -> bool, q: spec_fn(A) -> bool, w: int)
    requires
        forall|x: A| #[trigger] p(x) ==> q(x),
        0 <= w < s.len(),
        q(s[w]),
        !p(s[w]),
    ensures
        s.filter(p).len() < s.filter(q).len(),
    decreases s.len(),
{
    reveal(Seq::filter);
    if w == s.len() - 1 {
        lemma_filter_len_mono(s.drop_last(), p, q);
    } else {
        lemma_filter_len_strict(s.drop_last(), p, q, w);
    }
}

/// A component depends on strictly more than anything it depends on.
pub proof fn lemma_dependent_counts(dag: &DependencyDag, a: u64, b: u64)
    requires
        dag.well_formed(),
        pair_in(dag.closure@, a, b),
    ensures
        spec_dep_count(dag, a) > spec_dep_count(dag, b),
{
    let p = |u: u64| pair_in(dag.closure@, b, u);
    let q = |u: u64| pair_in(dag.closure@, a, u);
    assert forall|u: u64| #[trigger] p(u) implies q(u) by {
        if pair_in(dag.closure@, b, u) {
            assert(pair_in(dag.closure@, a, u));
        }
    }
    // `b` itself is registered, reached by `a` and never by itself.
    let k = choose|k: int| 0 <= k < dag.closure@.len() && #[trigger] dag.closure@[k] == (a, b);
    assert(tag_in(dag.tags@, b));
    let w = choose|w: int| 0 <= w < dag.tags@.len() && #[trigger] dag.tags@[w] == b;
    assert(q(dag.tags@[w]));
    assert(!p(dag.tags@[w]));
    lemma_filter_len_strict(dag.tags@, p, q, w);
}

/// In a list sorted by descending transitive-dependency count, a component
/// stands strictly before everything it depends on: dependents die first.
pub proof fn lemma_dependents_die_first(
    dag: &DependencyDag,
    order: Seq<u64>,
    i: int,
    j: int,
)
    requires
        dag.well_formed(),
        forall|k: int, l: int|
            0 <= k < l < order.len() ==> spec_dep_count(dag, #[trigger] order[k]) >= spec_dep_count(
                dag,
                #[trigger] order[l],
            ),
        0 <= i < order.len(),
        0 <= j < order.len(),
        pair_in(dag.closure@, order[i], order[j]),
    ensures
        i < j,
{
    lemma_dependent_counts(dag, order[i], order[j]);
    if i == j {
        assert(!pair_in(dag.closure@, order[i], order[i]));
    }
    if i > j {
        assert(spec_dep_count(dag, order[j]) >= spec_dep_count(dag, order[i]));
    }
}

/// Destroys the built components in descending transitive-dependency order,
/// so that every component is destroyed before its dependencies.
pub struct DAGDestructor<H> {
    pub destructors: Vec<(ComponentInfo, H)>,
}

impl<H> DAGDestructor<H> {
    /// Count how many registered components `t` depends on.
    pub fn dep_count(dag: &DependencyDag, t: u64) -> (r: usize)
        ensures
            r == spec_dep_count(dag, t),
    {
        let ghost pred = |u: u64| pair_in(dag.closure@, t, u);
        let n = dag.tags.len();
        let mut count: usize = 0;
        let mut i: usize = 0;
        proof {
            reveal(Seq::filter);
            assert(dag.tags@.take(0) =~= Seq::<u64>::empty());
        }
        while i < n
            invariant
                i <= n,
                n == dag.tags@.len(),
                pred == (|u: u64| pair_in(dag.closure@, t, u)),
                count == dag.tags@.take(i as int).filter(pred).len(),
                count <= i,
            decreases n - i,
        {
            proof {
                reveal(Seq::filter);
                assert(dag.tags@.take(i as int + 1).drop_last() =~= dag.tags@.take(i as int));
                assert(dag.tags@.take(i as int + 1).last() == dag.tags@[i as int]);
            }
            if dag.depends_on(t, dag.tags[i]) {
                count += 1;
            }
            i += 1;
        }
        proof {
            assert(dag.tags@.take(n as int) =~= dag.tags@);
        }
        count
    }

    /// Order the destructors by descending transitive-dependency count, so
    /// dependents die first.
    pub fn new(destructors: Vec<(ComponentInfo, H)>, dag: &DependencyDag) -> (r: Self)
        ensures
            r.destructors@.to_multiset() == destructors@.to_multiset(),
            forall|k: int, l: int|
                0 <= k < l < r.destructors@.len() ==> spec_dep_count(
                    dag,
                    (#[trigger] r.destructors@[k]).0.type_tag,
                ) >= spec_dep_count(dag, (#[trigger] r.destructors@[l]).0.type_tag),
    {
        broadcast use vstd::seq_lib::group_to_multiset_ensures;

        let ghost orig = destructors@;
        let mut remaining = destructors;
        let mut out: Vec<(ComponentInfo, H)> = Vec::new();
        proof {
            assert(out@.to_multiset().add(remaining@.to_multiset()) =~= orig.to_multiset());
        }
        while remaining.len() > 0
            invariant
                out@.to_multiset().add(remaining@.to_multiset()) == orig.to_multiset(),
                forall|k: int, l: int|
                    0 <= k < l < out@.len() ==> spec_dep_count(
                        dag,
                        (#[trigger] out@[k]).0.type_tag,
                    ) >= spec_dep_count(dag, (#[trigger] out@[l]).0.type_tag),
            decreases remaining@.len(),
        {
            let ghost pre_remaining = remaining@;
            let item = remaining.remove(0);
            let c = Self::dep_count(dag, item.0.type_tag);
            let mut p: usize = 0;
            while p < out.len() && c <= Self::dep_count(dag, out[p].0.type_tag)
                invariant
                    p <= out@.len(),
                    forall|k: int|
                        0 <= k < p ==> c <= spec_dep_count(dag, (#[trigger] out@[k]).0.type_tag),
                    c == spec_dep_count(dag, item.0.type_tag),
                decreases out@.len() - p,
            {
                p += 1;
            }
            let ghost pre_out = out@;
            out.insert(p, item);
            proof {
                broadcast use vstd::multiset::group_multiset_axioms;

                vstd::seq_lib::to_multiset_remove(pre_remaining, 0);
                vstd::seq_lib::to_multiset_insert(pre_out, p as int, pre_remaining[0]);
                assert(pre_remaining.contains(pre_remaining[0]));
                vstd::seq_lib::to_multiset_contains(pre_remaining, pre_remaining[0]);
                assert(pre_remaining.to_multiset().count(pre_remaining[0]) > 0);
                assert(out@.to_multiset().add(remaining@.to_multiset()) =~= orig.to_multiset());
                assert forall|k: int, l: int| 0 <= k < l < out@.len() implies spec_dep_count(
                    dag,
                    (#[trigger] out@[k]).0.type_tag,
                ) >= spec_dep_count(dag, (#[trigger] out@[l]).0.type_tag) by {
                    if l < p {
                        assert(out@[k] == pre_out[k] && out@[l] == pre_out[l]);
                    } else if k > p {
                        assert(out@[k] == pre_out[k - 1] && out@[l] == pre_out[l - 1]);
                    } else if k < p && l == p {
                        assert(out@[k] == pre_out[k]);
                    } else if k == p && l > p {
                        assert(out@[l] == pre_out[l - 1]);
                        assert(!(c <= spec_dep_count(dag, pre_out[p as int].0.type_tag)));
                        if l - 1 > p {
                            assert(spec_dep_count(dag, pre_out[p as int].0.type_tag)
                                >= spec_dep_count(dag, pre_out[l - 1].0.type_tag));
                        }
                    } else {
                        assert(out@[k] == pre_out[k] && out@[l] == pre_out[l - 1]);
                        if k < l - 1 {
                            assert(spec_dep_count(dag, pre_out[k].0.type_tag) >= spec_dep_count(
                                dag,
                                pre_out[l - 1].0.type_tag,
                            ));
                        }
                    }
                }
            }
        }
        DAGDestructor { destructors: out }
    }

    /// The components in the order they must be destroyed.
    pub fn order(&self) -> (r: &Vec<(ComponentInfo, H)>)
        ensures
            *r == self.destructors,
    {
        &self.destructors
    }
}

/// Collects component registrations, rejecting a type tag registered twice.
pub struct ComponentStoreBuilder {
    pub infos: Vec<ComponentInfo>,
}

impl ComponentStoreBuilder {
    /// Registered tags never repeat.
    pub open spec fn well_formed(&self) -> bool {
        forall|i: int, j: int|
            0 <= i < j < self.infos@.len() ==> (#[trigger] self.infos@[i]).type_tag != (
            #[trigger] self.infos@[j]).type_tag
    }

    pub fn new() -> (r: Self)
        ensures
            r.well_formed(),
            r.infos@.len() == 0,
    {
        ComponentStoreBuilder { infos: Vec::new() }
    }

    /// The registered tags, in registration order.
    pub fn tags(&self) -> (r: Vec<u64>)
        ensures
            r@.len() == self.infos@.len(),
            forall|i: int| 0 <= i < r@.len() ==> #[trigger] r@[i] == self.infos@[i].type_tag,
    {
        let mut out: Vec<u64> = Vec::new();
        let n = self.infos.len();
        let mut i: usize = 0;
        while i < n
            invariant
                i <= n,
                n == self.infos@.len(),
                out@.len() == i,
                forall|k: int| 0 <= k < i ==> #[trigger] out@[k] == self.infos@[k].type_tag,
            decreases n - i,
        {
            out.push(self.infos[i].type_tag);
            i += 1;
        }
        out
    }

    /// Register a component type; a tag registered before is refused.
    pub fn register(&mut self, info: ComponentInfo) -> (r: Result<(), ComponentError>)
        requires
            old(self).well_formed(),
        ensures
            final(self).well_formed(),
            (exists|i: int|
                0 <= i < old(self).infos@.len() && (#[trigger] old(self).infos@[i]).type_tag
                    == info.type_tag) ==> r is Err && r->Err_0 is InitializationFailed
                && *final(self) == *old(self),
            !(exists|i: int|
                0 <= i < old(self).infos@.len() && (#[trigger] old(self).infos@[i]).type_tag
                    == info.type_tag) ==> r is Ok && final(self).infos@ == old(self).infos@.push(
                info,
            ),
    {
        let n = self.infos.len();
        let mut i: usize = 0;
        while i < n
            invariant
                i <= n,
                n == self.infos@.len(),
                *self == *old(self),
                old(self).well_formed(),
                forall|k: int|
                    0 <= k < i ==> (#[trigger] self.infos@[k]).type_tag != info.type_tag,
            decreases n - i,
        {
            if self.infos[i].type_tag == info.type_tag {
                let mut message = info.name.clone();
                message.append(" is already registered");
                return Err(ComponentError::InitializationFailed { message });
            }
            i += 1;
        }
        let ghost pre = self.infos@;
        self.infos.push(info);
        proof {
            assert forall|a: int, b: int| 0 <= a < b < self.infos@.len() implies (
            #[trigger] self.infos@[a]).type_tag != (#[trigger] self.infos@[b]).type_tag by {
                if b < self.infos@.len() - 1 {
                    assert(pre[a].type_tag != pre[b].type_tag);
                } else {
                    assert(self.infos@[a] == pre[a]);
                }
            }
        }
        Ok(())
    }
}

/// The handle a store gives out for `tag`, if any.
pub open spec fn store_lookup<H>(components: Seq<(u64, H)>, tag: u64) -> Option<H>
    decreases components.len(),
{
    if components.len() == 0 {
        None
    } else if components.last().0 == tag {
        Some(components.last().1)
    } else {
        store_lookup(components.drop_last(), tag)
    }
}

/// Holds the built component singletons, resolved by type tag; read-only
/// after the build.
pub struct ComponentStore<H> {
    pub components: Vec<(u64, H)>,
}

impl<H> ComponentStore<H> {
    pub fn new(components: Vec<(u64, H)>) -> (r: Self)
        ensures
            r.components == components,
    {
        ComponentStore { components }
    }

    /// The component registered under this tag, if any.
    pub fn resolve(&self, type_tag: u64) -> (r: Option<&H>)
        ensures
            match r {
                Some(h) => store_lookup(self.components@, type_tag) == Some(*h),
                None => store_lookup(self.components@, type_tag) is None,
            },
    {
        let mut idx = self.components.len();
        proof {
            assert(self.components@.take(self.components@.len() as int) =~= self.components@);
        }
        while idx > 0
            invariant
                idx <= self.components@.len(),
                store_lookup(self.components@, type_tag) == store_lookup(
                    self.components@.take(idx as int),
                    type_tag,
                ),
            decreases idx,
        {
            idx -= 1;
            proof {
                assert(self.components@.take(idx as int + 1).drop_last() =~= self.components@.take(
                    idx as int,
                ));
                assert(self.components@.take(idx as int + 1).last() == self.components@[
                    idx as int]);
            }
            if self.components[idx].0 == type_tag {
                return Some(&self.components[idx].1);
            }
        }
        proof {
            assert(self.components@.take(0) =~= Seq::<(u64, H)>::empty());
        }
        None
    }
}

} // verus!
