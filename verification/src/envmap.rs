//! The environment map and the resolution algorithm: a mapping from variable
//! names to values where later writes win, directional folding of layered
//! sources into the process variables, from-directive lookups, and literal
//! overrides applied last.

use vstd::prelude::*;

use crate::parse::{parse_line, split_line};

verus! {

/// The map denoted by a sequence of key/value pairs: later pairs overwrite
/// earlier ones with the same key.
pub open spec fn map_of_pairs(ps: Seq<(Seq<char>, Seq<char>)>) -> Map<Seq<char>, Seq<char>>
    decreases ps.len(),
{
    if ps.len() == 0 {
        Map::empty()
    } else {
        map_of_pairs(ps.drop_last()).insert(ps.last().0, ps.last().1)
    }
}

proof fn lemma_map_of_pairs_found(ps: Seq<(Seq<char>, Seq<char>)>, i: int)
    requires
        0 <= i < ps.len(),
        forall|j: int| i < j < ps.len() ==> ps[j].0 != ps[i].0,
    ensures
        map_of_pairs(ps).contains_key(ps[i].0),
        map_of_pairs(ps)[ps[i].0] == ps[i].1,
    decreases ps.len(),
{
    if i < ps.len() - 1 {
        lemma_map_of_pairs_found(ps.drop_last(), i);
    }
}

proof fn lemma_map_of_pairs_absent(ps: Seq<(Seq<char>, Seq<char>)>, k: Seq<char>)
    requires
        forall|j: int| 0 <= j < ps.len() ==> ps[j].0 != k,
    ensures
        !map_of_pairs(ps).contains_key(k),
    decreases ps.len(),
{
    if ps.len() > 0 {
        lemma_map_of_pairs_absent(ps.drop_last(), k);
    }
}

/// A mapping from variable names to values. Its view is the mathematical map
/// the stored pairs denote, the last write to a key winning.
pub struct EnvMap {
    pairs: Vec<(String, String)>,
}

impl View for EnvMap {
    type V = Map<Seq<char>, Seq<char>>;

    closed spec fn view(&self) -> Map<Seq<char>, Seq<char>> {
        map_of_pairs(self.pairs.deep_view())
    }
}

impl EnvMap {
    /// The empty environment.
    pub fn new() -> (r: EnvMap)
        ensures
            r@ == Map::<Seq<char>, Seq<char>>::empty(),
    {
        let r = EnvMap { pairs: Vec::new() };
        proof {
            assert(r.pairs.deep_view() =~= Seq::<(Seq<char>, Seq<char>)>::empty());
        }
        r
    }

    /// Look a variable up: the value under the key in the map's view, if any.
    pub fn get<'a>(&'a self, k: &String) -> (r: Option<&'a String>)
        ensures
            match r {
                Some(v) => self@.contains_key(k@) && v@ == self@[k@],
                None => !self@.contains_key(k@),
            },
    {
        let ghost dv = self.pairs.deep_view();
        let mut i: usize = self.pairs.len();
        while i > 0
            invariant
                i <= self.pairs.len(),
                dv == self.pairs.deep_view(),
                forall|j: int| i <= j < dv.len() ==> dv[j].0 != k@,
            decreases i,
        {
            i = i - 1;
            let p = &self.pairs[i];
            proof {
                assert(dv[i as int] == (p.0@, p.1@));
            }
            if p.0 == *k {
                proof {
                    lemma_map_of_pairs_found(dv, i as int);
                }
                return Some(&p.1);
            }
        }
        proof {
            lemma_map_of_pairs_absent(dv, k@);
        }
        None
    }

    /// An independent copy with the same contents.
    pub fn duplicate(&self) -> (r: EnvMap)
        ensures
            r@ == self@,
    {
        let mut pairs: Vec<(String, String)> = Vec::new();
        proof {
            assert(pairs.deep_view() =~= Seq::<(Seq<char>, Seq<char>)>::empty());
        }
        append_pairs(&mut pairs, &self.pairs);
        proof {
            assert(Seq::<(Seq<char>, Seq<char>)>::empty() + self.pairs.deep_view()
                =~= self.pairs.deep_view());
        }
        EnvMap { pairs }
    }

    /// The map's pairs, one per variable with its current value: collecting
    /// them back as a map yields this map again.
    pub fn entries(&self) -> (r: Vec<(String, String)>)
        ensures
            distinct_keys(r.deep_view()),
            map_of_pairs(r.deep_view()) == self@,
    {
        let ghost dv = self.pairs.deep_view();
        let mut out: Vec<(String, String)> = Vec::new();
        let mut i: usize = self.pairs.len();
        proof {
            assert(out.deep_view() =~= Seq::<(Seq<char>, Seq<char>)>::empty());
            assert(dv.skip(i as int) =~= Seq::<(Seq<char>, Seq<char>)>::empty());
        }
        while i > 0
            invariant
                i <= self.pairs.len(),
                dv == self.pairs.deep_view(),
                distinct_keys(out.deep_view()),
                map_of_pairs(out.deep_view()) == map_of_pairs(dv.skip(i as int)),
            decreases i,
        {
            i = i - 1;
            let p = &self.pairs[i];
            proof {
                assert(dv[i as int] == (p.0@, p.1@));
            }
            let ghost pre = out.deep_view();
            if !has_key(&out, &p.0) {
                out.push((p.0.clone(), p.1.clone()));
                proof {
                    assert(out.deep_view() =~= pre.push((p.0@, p.1@)));
                    assert(out.deep_view().drop_last() =~= pre);
                    assert(out.deep_view().last() == (p.0@, p.1@));
                    assert forall|j: int| 0 <= j < pre.len() implies pre[j].0 != p.0@ by {
                        if pre[j].0 == p.0@ {
                            lemma_map_of_pairs_key_of(pre, j);
                        }
                    }
                }
            }
            proof {
                lemma_map_of_pairs_prepend(dv[i as int], dv.skip(i + 1));
                assert(seq![dv[i as int]] + dv.skip(i + 1) =~= dv.skip(i as int));
            }
        }
        proof {
            assert(dv.skip(0) =~= dv);
        }
        out
    }
}

/// No two pairs bind the same key.
pub open spec fn distinct_keys(ps: Seq<(Seq<char>, Seq<char>)>) -> bool {
    forall|i: int, j: int| 0 <= i < j < ps.len() ==> ps[i].0 != ps[j].0
}

fn has_key(v: &Vec<(String, String)>, k: &String) -> (r: bool)
    ensures
        r == map_of_pairs(v.deep_view()).contains_key(k@),
{
    let ghost dv = v.deep_view();
    let mut i: usize = 0;
    while i < v.len()
        invariant
            i <= v.len(),
            dv == v.deep_view(),
            forall|j: int| 0 <= j < i ==> dv[j].0 != k@,
        decreases v.len() - i,
    {
        let p = &v[i];
        proof {
            assert(dv[i as int] == (p.0@, p.1@));
        }
        if p.0 == *k {
            proof {
                lemma_map_of_pairs_key_of(dv, i as int);
            }
            return true;
        }
        i = i + 1;
    }
    proof {
        lemma_map_of_pairs_absent(dv, k@);
    }
    false
}

proof fn lemma_map_of_pairs_key_of(ps: Seq<(Seq<char>, Seq<char>)>, i: int)
    requires
        0 <= i < ps.len(),
    ensures
        map_of_pairs(ps).contains_key(ps[i].0),
    decreases ps.len(),
{
    if i < ps.len() - 1 {
        lemma_map_of_pairs_key_of(ps.drop_last(), i);
    }
}

proof fn lemma_map_of_pairs_prepend(p: (Seq<char>, Seq<char>), rest: Seq<(Seq<char>, Seq<char>)>)
    ensures
        map_of_pairs(rest).contains_key(p.0) ==> map_of_pairs(seq![p] + rest) == map_of_pairs(
            rest,
        ),
        !map_of_pairs(rest).contains_key(p.0) ==> map_of_pairs(seq![p] + rest) == map_of_pairs(
            rest,
        ).insert(p.0, p.1),
{
    lemma_map_of_pairs_concat(seq![p], rest);
    let e = Seq::<(Seq<char>, Seq<char>)>::empty();
    assert(seq![p].drop_last() =~= e);
    assert(map_of_pairs(e) == Map::<Seq<char>, Seq<char>>::empty());
    assert(seq![p].last() == p);
    assert(map_of_pairs(seq![p]) == Map::<Seq<char>, Seq<char>>::empty().insert(p.0, p.1));
    if map_of_pairs(rest).contains_key(p.0) {
        assert(map_of_pairs(seq![p]).union_prefer_right(map_of_pairs(rest)) =~= map_of_pairs(
            rest,
        ));
    } else {
        assert(map_of_pairs(seq![p]).union_prefer_right(map_of_pairs(rest)) =~= map_of_pairs(
            rest,
        ).insert(p.0, p.1));
    }
}

/// Set one variable unconditionally: the absolute overwrite that literal
/// overrides and from-directives use.
pub fn set(env: &mut EnvMap, k: String, v: String)
    ensures
        final(env)@ == old(env)@.insert(k@, v@),
{
    let ghost dv = old(env).pairs.deep_view();
    env.pairs.push((k, v));
    proof {
        assert(env.pairs.deep_view().drop_last() =~= dv);
    }
}

/// Collect parsed pairs into an environment map: later pairs overwrite
/// earlier ones with the same key.
pub fn to_denvm(v: Vec<(String, String)>) -> (r: EnvMap)
    ensures
        r@ == map_of_pairs(v.deep_view()),
{
    EnvMap { pairs: v }
}

/// The map denoted by the lines of an environment file, parsed in order:
/// lines yielding no pair are skipped, later lines overwrite earlier ones.
pub open spec fn envm_of_lines(ls: Seq<Seq<char>>) -> Map<Seq<char>, Seq<char>>
    decreases ls.len(),
{
    if ls.len() == 0 {
        Map::empty()
    } else {
        match parse_line(ls.last()) {
            Some(kv) => envm_of_lines(ls.drop_last()).insert(kv.0, kv.1),
            None => envm_of_lines(ls.drop_last()),
        }
    }
}

/// Load the lines of one environment file into a map, applying the line
/// parser to each line in order.
pub fn lines_to_denvm(lines: Vec<String>) -> (r: EnvMap)
    ensures
        r@ == envm_of_lines(lines.deep_view()),
{
    let ghost lv = lines.deep_view();
    let mut r = EnvMap::new();
    let mut i: usize = 0;
    proof {
        assert(lv.take(0) =~= Seq::<Seq<char>>::empty());
    }
    while i < lines.len()
        invariant
            i <= lines.len(),
            lv == lines.deep_view(),
            r@ == envm_of_lines(lv.take(i as int)),
        decreases lines.len() - i,
    {
        let line = (&lines[i]).clone();
        proof {
            assert(line@ == lv[i as int]);
        }
        match split_line(line) {
            Some(p) => {
                let (k, v) = p;
                set(&mut r, k, v);
            },
            None => {},
        }
        proof {
            assert(lv.take(i + 1).drop_last() =~= lv.take(i as int));
        }
        i = i + 1;
    }
    proof {
        assert(lv.take(lines.len() as int) =~= lv);
    }
    r
}

/// Merge direction: on a key collision, `L` keeps the accumulator's value
/// and `R` takes the incoming source's value.
pub enum Dir {
    L,
    R,
}

/// One fold step: source `s` folded into accumulator `a` under `dir`.
pub open spec fn apply_dir(
    a: Map<Seq<char>, Seq<char>>,
    s: Map<Seq<char>, Seq<char>>,
    dir: Dir,
) -> Map<Seq<char>, Seq<char>> {
    match dir {
        Dir::L => s.union_prefer_right(a),
        Dir::R => a.union_prefer_right(s),
    }
}

proof fn lemma_union_insert(
    m1: Map<Seq<char>, Seq<char>>,
    m2: Map<Seq<char>, Seq<char>>,
    k: Seq<char>,
    v: Seq<char>,
)
    ensures
        m1.union_prefer_right(m2).insert(k, v) == m1.union_prefer_right(m2.insert(k, v)),
{
    assert(m1.union_prefer_right(m2).insert(k, v) =~= m1.union_prefer_right(m2.insert(k, v)));
}

proof fn lemma_map_of_pairs_concat(a: Seq<(Seq<char>, Seq<char>)>, b: Seq<(Seq<char>, Seq<char>)>)
    ensures
        map_of_pairs(a + b) == map_of_pairs(a).union_prefer_right(map_of_pairs(b)),
    decreases b.len(),
{
    if b.len() == 0 {
        assert(a + b =~= a);
        assert(map_of_pairs(a).union_prefer_right(Map::<Seq<char>, Seq<char>>::empty())
            =~= map_of_pairs(a));
    } else {
        lemma_map_of_pairs_concat(a, b.drop_last());
        assert((a + b).drop_last() =~= a + b.drop_last());
        lemma_union_insert(
            map_of_pairs(a),
            map_of_pairs(b.drop_last()),
            b.last().0,
            b.last().1,
        );
    }
}

fn append_pairs(dst: &mut Vec<(String, String)>, src: &Vec<(String, String)>)
    ensures
        final(dst).deep_view() == old(dst).deep_view() + src.deep_view(),
{
    let ghost d0 = old(dst).deep_view();
    let ghost sv = src.deep_view();
    let mut i: usize = 0;
    proof {
        assert(d0 + sv.take(0) =~= d0);
    }
    while i < src.len()
        invariant
            i <= src.len(),
            sv == src.deep_view(),
            dst.deep_view() == d0 + sv.take(i as int),
        decreases src.len() - i,
    {
        let p = &src[i];
        proof {
            assert(sv[i as int] == (p.0@, p.1@));
        }
        let ghost pre = dst.deep_view();
        dst.push((p.0.clone(), p.1.clone()));
        proof {
            assert(dst.deep_view() =~= pre.push((p.0@, p.1@)));
            assert(pre.push(sv[i as int]) =~= d0 + sv.take(i + 1));
        }
        i = i + 1;
    }
    proof {
        assert(sv.take(src.len() as int) =~= sv);
    }
}

/// Merge `snd` into `fst`: on a key collision the second map's value wins.
pub fn merge(fst: EnvMap, snd: EnvMap) -> (r: EnvMap)
    ensures
        r@ == fst@.union_prefer_right(snd@),
{
    let ghost f = fst.pairs.deep_view();
    let mut r = fst;
    append_pairs(&mut r.pairs, &snd.pairs);
    proof {
        lemma_map_of_pairs_concat(f, snd.pairs.deep_view());
    }
    r
}

/// Fold source `r` into accumulator `l`, the accumulator's values winning
/// collisions.
pub fn merge_l(l: EnvMap, r: EnvMap) -> (m: EnvMap)
    ensures
        m@ == r@.union_prefer_right(l@),
{
    merge(r, l)
}

/// Fold source `r` into accumulator `l`, the source's values winning
/// collisions.
pub fn merge_r(l: EnvMap, r: EnvMap) -> (m: EnvMap)
    ensures
        m@ == l@.union_prefer_right(r@),
{
    merge(l, r)
}

/// The views of a sequence of environment maps.
pub open spec fn env_views(ls: Seq<EnvMap>) -> Seq<Map<Seq<char>, Seq<char>>> {
    ls.map_values(|e: EnvMap| e@)
}

/// Each layer folded into the accumulator in order, under one direction.
pub open spec fn fold_dir(
    acc: Map<Seq<char>, Seq<char>>,
    layers: Seq<Map<Seq<char>, Seq<char>>>,
    dir: Dir,
) -> Map<Seq<char>, Seq<char>>
    decreases layers.len(),
{
    if layers.len() == 0 {
        acc
    } else {
        fold_dir(apply_dir(acc, layers[0], dir), layers.drop_first(), dir)
    }
}

proof fn lemma_fold_dir_push(
    acc: Map<Seq<char>, Seq<char>>,
    layers: Seq<Map<Seq<char>, Seq<char>>>,
    x: Map<Seq<char>, Seq<char>>,
    dir: Dir,
)
    ensures
        fold_dir(acc, layers.push(x), dir) == apply_dir(fold_dir(acc, layers, dir), x, dir),
    decreases layers.len(),
{
    if layers.len() == 0 {
        assert(layers.push(x)[0] == x);
        assert(layers.push(x).drop_first() =~= Seq::<Map<Seq<char>, Seq<char>>>::empty());
        assert(fold_dir(acc, layers.push(x), dir) == fold_dir(
            apply_dir(acc, x, dir),
            layers.push(x).drop_first(),
            dir,
        ));
        assert(fold_dir(apply_dir(acc, x, dir), layers.push(x).drop_first(), dir) == apply_dir(
            acc,
            x,
            dir,
        ));
        assert(fold_dir(acc, layers, dir) == acc);
    } else {
        assert(layers.push(x)[0] == layers[0]);
        assert(layers.push(x).drop_first() =~= layers.drop_first().push(x));
        assert(fold_dir(acc, layers.push(x), dir) == fold_dir(
            apply_dir(acc, layers[0], dir),
            layers.drop_first().push(x),
            dir,
        ));
        assert(fold_dir(acc, layers, dir) == fold_dir(
            apply_dir(acc, layers[0], dir),
            layers.drop_first(),
            dir,
        ));
        lemma_fold_dir_push(apply_dir(acc, layers[0], dir), layers.drop_first(), x, dir);
    }
}

/// Fold the given layers (the default file's map first, then each named
/// environment in listed order) into the process variables under the chosen
/// merge direction, the same direction at every step.
pub fn merge_envs(vars: EnvMap, layers: Vec<EnvMap>, dir: Dir) -> (r: EnvMap)
    ensures
        r@ == fold_dir(vars@, env_views(layers@), dir),
{
    let ghost v0 = vars@;
    let ghost lv = env_views(layers@);
    let mut acc = vars;
    let mut i: usize = 0;
    proof {
        assert(lv.take(0) =~= Seq::<Map<Seq<char>, Seq<char>>>::empty());
    }
    while i < layers.len()
        invariant
            i <= layers.len(),
            lv == env_views(layers@),
            acc@ == fold_dir(v0, lv.take(i as int), dir),
        decreases layers.len() - i,
    {
        let src = (&layers[i]).duplicate();
        proof {
            assert(src@ == lv[i as int]);
        }
        acc = match dir {
            Dir::L => merge_l(acc, src),
            Dir::R => merge_r(acc, src),
        };
        proof {
            assert(lv.take(i + 1) =~= lv.take(i as int).push(lv[i as int]));
            lemma_fold_dir_push(v0, lv.take(i as int), lv[i as int], dir);
        }
        i = i + 1;
    }
    proof {
        assert(lv.take(layers.len() as int) =~= lv);
    }
    acc
}

/// One optional override applied to a map: a present pair overwrites
/// unconditionally, an absent one changes nothing.
pub open spec fn apply_opt(
    m: Map<Seq<char>, Seq<char>>,
    p: Option<(Seq<char>, Seq<char>)>,
) -> Map<Seq<char>, Seq<char>> {
    match p {
        Some(kv) => m.insert(kv.0, kv.1),
        None => m,
    }
}

/// A list of optional overrides applied in order.
pub open spec fn apply_pairs(
    m: Map<Seq<char>, Seq<char>>,
    ps: Seq<Option<(Seq<char>, Seq<char>)>>,
) -> Map<Seq<char>, Seq<char>>
    decreases ps.len(),
{
    if ps.len() == 0 {
        m
    } else {
        apply_opt(apply_pairs(m, ps.drop_last()), ps.last())
    }
}

/// Apply the from-directive results in order; each present pair overwrites
/// the accumulated environment unconditionally.
pub fn set_froms(froms: Vec<Option<(String, String)>>, e: &mut EnvMap)
    ensures
        final(e)@ == apply_pairs(old(e)@, froms.deep_view()),
{
    let ghost fv = froms.deep_view();
    let ghost m0 = old(e)@;
    let mut i: usize = 0;
    proof {
        assert(fv.take(0) =~= Seq::<Option<(Seq<char>, Seq<char>)>>::empty());
    }
    while i < froms.len()
        invariant
            i <= froms.len(),
            fv == froms.deep_view(),
            e@ == apply_pairs(m0, fv.take(i as int)),
        decreases froms.len() - i,
    {
        proof {
            assert(fv[i as int] == froms@[i as int].deep_view());
        }
        match &froms[i] {
            Some(p) => {
                set(e, p.0.clone(), p.1.clone());
            },
            None => {},
        }
        proof {
            assert(fv.take(i + 1).drop_last() =~= fv.take(i as int));
        }
        i = i + 1;
    }
    proof {
        assert(fv.take(froms.len() as int) =~= fv);
    }
}

/// Apply the literal overrides in order; each present pair overwrites the
/// accumulated environment unconditionally. They come after the
/// from-directives, so they win over everything.
pub fn set_sets(sets: Vec<Option<(String, String)>>, e: &mut EnvMap)
    ensures
        final(e)@ == apply_pairs(old(e)@, sets.deep_view()),
{
    set_froms(sets, e)
}

/// What a from-directive looks up: the pair for `k` in the source
/// environment's map, if present.
pub open spec fn from_pair(
    src: Map<Seq<char>, Seq<char>>,
    k: Seq<char>,
) -> Option<(Seq<char>, Seq<char>)> {
    if src.contains_key(k) {
        Some((k, src[k]))
    } else {
        None
    }
}

/// Look one variable up in a loaded source environment, the from-directive's
/// lookup: an absent key yields no pair and is not an error.
pub fn get_from(e: &EnvMap, var_name: String) -> (r: Option<(String, String)>)
    ensures
        r.deep_view() == from_pair(e@, var_name@),
{
    match e.get(&var_name) {
        Some(v) => {
            let value = v.clone();
            Some((var_name, value))
        },
        None => None,
    }
}

/// The fully resolved environment: the layers folded into the process
/// variables under the direction, then the from-directive results, then the
/// literal overrides.
pub open spec fn resolved(
    vars: Map<Seq<char>, Seq<char>>,
    layers: Seq<Map<Seq<char>, Seq<char>>>,
    dir: Dir,
    froms: Seq<Option<(Seq<char>, Seq<char>)>>,
    sets: Seq<Option<(Seq<char>, Seq<char>)>>,
) -> Map<Seq<char>, Seq<char>> {
    apply_pairs(apply_pairs(fold_dir(vars, layers, dir), froms), sets)
}

/// Produce the final environment for the child command: fold the loaded
/// layers into the process variables under `dir`, then apply the
/// from-directive results, then the literal overrides, in order.
pub fn resolve(
    vars: EnvMap,
    layers: Vec<EnvMap>,
    dir: Dir,
    froms: Vec<Option<(String, String)>>,
    sets: Vec<Option<(String, String)>>,
) -> (r: EnvMap)
    ensures
        r@ == resolved(vars@, env_views(layers@), dir, froms.deep_view(), sets.deep_view()),
{
    let mut e = merge_envs(vars, layers, dir);
    set_froms(froms, &mut e);
    set_sets(sets, &mut e);
    e
}

/// Merge idempotence: folding a map into itself, under either direction,
/// yields the same map.
pub proof fn lemma_merge_idempotent(m: Map<Seq<char>, Seq<char>>, dir: Dir)
    ensures
        apply_dir(m, m, dir) == m,
{
    assert(m.union_prefer_right(m) =~= m);
}

/// Direction law: where accumulator and source share a key, `R` takes the
/// source's value and `L` keeps the accumulator's; a key present only in
/// the source is taken under either direction.
pub proof fn lemma_direction(a: Map<Seq<char>, Seq<char>>, s: Map<Seq<char>, Seq<char>>, k: Seq<char>)
    requires
        s.contains_key(k),
    ensures
        apply_dir(a, s, Dir::R).contains_key(k),
        apply_dir(a, s, Dir::L).contains_key(k),
        apply_dir(a, s, Dir::R)[k] == s[k],
        a.contains_key(k) ==> apply_dir(a, s, Dir::L)[k] == a[k],
        !a.contains_key(k) ==> apply_dir(a, s, Dir::L)[k] == s[k],
{
}

/// The value the last present binding of `k` in a list of optional
/// overrides assigns, if any.
pub open spec fn binding_of(ps: Seq<Option<(Seq<char>, Seq<char>)>>, k: Seq<char>) -> Option<
    Seq<char>,
>
    decreases ps.len(),
{
    if ps.len() == 0 {
        None
    } else {
        match ps.last() {
            Some(kv) => if kv.0 == k {
                Some(kv.1)
            } else {
                binding_of(ps.drop_last(), k)
            },
            None => binding_of(ps.drop_last(), k),
        }
    }
}

/// Applying a list of optional overrides sets each bound key to its last
/// bound value and leaves every other key exactly as it was.
pub proof fn lemma_apply_binding(
    m: Map<Seq<char>, Seq<char>>,
    ps: Seq<Option<(Seq<char>, Seq<char>)>>,
    k: Seq<char>,
)
    ensures
        match binding_of(ps, k) {
            Some(v) => apply_pairs(m, ps).contains_key(k) && apply_pairs(m, ps)[k] == v,
            None => apply_pairs(m, ps).contains_key(k) == m.contains_key(k) && (m.contains_key(k)
                ==> apply_pairs(m, ps)[k] == m[k]),
        },
    decreases ps.len(),
{
    if ps.len() > 0 {
        lemma_apply_binding(m, ps.drop_last(), k);
    }
}

/// Override absoluteness: the last literal override bound for `k` determines
/// the resolved value for `k`, whatever the process variables, the layered
/// files, the merge direction and the from-directives held.
pub proof fn lemma_override_absolute(
    vars: Map<Seq<char>, Seq<char>>,
    layers: Seq<Map<Seq<char>, Seq<char>>>,
    dir: Dir,
    froms: Seq<Option<(Seq<char>, Seq<char>)>>,
    sets: Seq<Option<(Seq<char>, Seq<char>)>>,
    k: Seq<char>,
    v: Seq<char>,
)
    requires
        binding_of(sets, k) == Some(v),
    ensures
        resolved(vars, layers, dir, froms, sets).contains_key(k),
        resolved(vars, layers, dir, froms, sets)[k] == v,
{
    lemma_apply_binding(apply_pairs(fold_dir(vars, layers, dir), froms), sets, k);
}

/// From-directive absoluteness: a successful lookup overwrites any prior
/// value for the key; a missed lookup changes nothing and is not an error.
pub proof fn lemma_from_absolute(
    m: Map<Seq<char>, Seq<char>>,
    src: Map<Seq<char>, Seq<char>>,
    k: Seq<char>,
)
    ensures
        src.contains_key(k) ==> apply_opt(m, from_pair(src, k)) == m.insert(k, src[k]),
        !src.contains_key(k) ==> apply_opt(m, from_pair(src, k)) == m,
{
}

} // verus!
