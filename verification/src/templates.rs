//! Template inheritance: resolving each named template against its parents.
//!
//! A template names zero, one or several parents. Its resolved bundle is the merge, in order,
//! of its parents' resolved bundles, with its own components merged last (later wins). Loading
//! fails when a parent name is missing or when the parent relation has a cycle.
use vstd::prelude::*;
use vstd::set_lib::*;

use crate::components::{merge_components, EntityComponents};
use crate::errors::ImportError;

verus! {

/// The views of a sequence of strings.
pub open spec fn names_of(v: Seq<String>) -> Seq<Seq<char>> {
    v.map_values(|s: String| s@)
}

proof fn lemma_names_push(s: Seq<String>, x: String)
    ensures
        names_of(s.push(x)) == names_of(s).push(x@),
{
    assert(names_of(s.push(x)) =~= names_of(s).push(x@));
}

proof fn lemma_names_take_step(v: Seq<String>, i: int)
    requires
        0 <= i < v.len(),
    ensures
        names_of(v).take(i + 1) == names_of(v).take(i).push(v[i]@),
{
    assert(names_of(v).take(i + 1) =~= names_of(v).take(i).push(v[i]@));
}

/// One parent name or an ordered list of them.
#[derive(Debug)]
pub enum TemplateParents {
    Absent,
    One(String),
    Many(Vec<String>),
}

impl TemplateParents {
    /// The parent names, in order.
    pub open spec fn names(&self) -> Seq<Seq<char>> {
        match self {
            TemplateParents::Absent => Seq::empty(),
            TemplateParents::One(name) => seq![name@],
            TemplateParents::Many(names) => names_of(names@),
        }
    }

    /// The parent names, in order.
    pub fn into_vec(self) -> (names: Vec<String>)
        ensures
            names_of(names@) == self.names(),
    {
        match self {
            TemplateParents::Absent => Vec::new(),
            TemplateParents::One(name) => {
                let mut v = Vec::new();
                v.push(name);
                proof {
                    assert(names_of(v@) =~= seq![name@]);
                }
                v
            },
            TemplateParents::Many(names) => names,
        }
    }

    /// A copy of the parent names, in order.
    pub fn names_vec(&self) -> (names: Vec<String>)
        ensures
            names_of(names@) == self.names(),
    {
        match self {
            TemplateParents::Absent => Vec::new(),
            TemplateParents::One(name) => {
                let mut v = Vec::new();
                v.push(name.clone());
                proof {
                    assert(names_of(v@) =~= seq![name@]);
                }
                v
            },
            TemplateParents::Many(names) => {
                let mut out: Vec<String> = Vec::new();
                let mut i: usize = 0;
                while i < names.len()
                    invariant
                        i <= names.len(),
                        names_of(out@) =~= names_of(names@).take(i as int),
                    decreases names.len() - i,
                {
                    let ghost prev = out@;
                    out.push(names[i].clone());
                    proof {
                        lemma_names_push(prev, names@[i as int]);
                        lemma_names_take_step(names@, i as int);
                    }
                    i += 1;
                }
                proof {
                    assert(names_of(names@).take(names.len() as int) =~= names_of(names@));
                }
                out
            },
        }
    }
}

/// A single parent name lists the same parents as a one-element list, and no parent lists the
/// same parents as an empty list: the YAML spellings `template: x`, `template: [x]`,
/// (absent) and `template: []` mean the same thing.
pub proof fn lemma_parent_spellings_agree(name: String, list: Vec<String>)
    ensures
        names_of(list@) == seq![name@] ==> TemplateParents::One(name).names()
            == TemplateParents::Many(list).names(),
        list@.len() == 0 ==> TemplateParents::Absent.names() == TemplateParents::Many(list).names(),
{
    if list@.len() == 0 {
        assert(names_of(list@) =~= Seq::<Seq<char>>::empty());
    }
}

/// A template as written: its name, its parents, and its own components.
#[derive(Debug)]
pub struct RawTemplate {
    pub name: String,
    pub template: TemplateParents,
    pub components: EntityComponents,
}

/// Index of the first template named `name` at or after `i`.
pub open spec fn find_from(raw: Seq<RawTemplate>, name: Seq<char>, i: int) -> Option<int>
    decreases raw.len() - i,
{
    if i < 0 || i >= raw.len() {
        None
    } else if raw[i].name@ == name {
        Some(i)
    } else {
        find_from(raw, name, i + 1)
    }
}

/// Index of the first template named `name`.
pub open spec fn find(raw: Seq<RawTemplate>, name: Seq<char>) -> Option<int> {
    find_from(raw, name, 0)
}

/// Parent names of the template named `name` (empty when there is none).
pub open spec fn parents_of(raw: Seq<RawTemplate>, name: Seq<char>) -> Seq<Seq<char>> {
    match find(raw, name) {
        Some(k) => raw[k].template.names(),
        None => Seq::empty(),
    }
}

/// The bundle `name` resolves to when inheritance may be followed `fuel` levels deep.
pub open spec fn resolve_at(raw: Seq<RawTemplate>, name: Seq<char>, fuel: nat) -> Option<
    EntityComponents,
>
    decreases fuel, 0nat,
{
    if fuel == 0 {
        None
    } else {
        match find(raw, name) {
            None => None,
            Some(k) => match fold_parents(raw, raw[k].template.names(), (fuel - 1) as nat) {
                None => None,
                Some(base) => Some(EntityComponents::spec_merge(base, raw[k].components)),
            },
        }
    }
}

/// The parents' resolved bundles merged in order (later wins), or `None` if one fails.
pub open spec fn fold_parents(raw: Seq<RawTemplate>, ps: Seq<Seq<char>>, fuel: nat) -> Option<
    EntityComponents,
>
    decreases fuel, ps.len() + 1,
{
    if ps.len() == 0 {
        Some(EntityComponents::spec_empty())
    } else {
        match fold_parents(raw, ps.drop_last(), fuel) {
            None => None,
            Some(base) => match resolve_at(raw, ps.last(), fuel) {
                None => None,
                Some(c) => Some(EntityComponents::spec_merge(base, c)),
            },
        }
    }
}

/// `name` resolves to `c` at some depth.
pub open spec fn template_resolves(raw: Seq<RawTemplate>, name: Seq<char>, c: EntityComponents) -> bool {
    exists|f: nat| resolve_at(raw, name, f) == Some(c)
}

/// `name` resolves to nothing at any depth: a parent is missing or the chain loops.
pub open spec fn never_resolves(raw: Seq<RawTemplate>, name: Seq<char>) -> bool {
    forall|f: nat| #[trigger] resolve_at(raw, name, f) is None
}

/// Every template of the set resolves.
pub open spec fn templates_well_formed(raw: Seq<RawTemplate>) -> bool {
    forall|k: int| 0 <= k < raw.len() ==> !never_resolves(raw, #[trigger] raw[k].name@)
}

/// `path` follows the parent relation: each element names a template, and the next element is
/// one of its parents.
pub open spec fn is_parent_path(raw: Seq<RawTemplate>, path: Seq<Seq<char>>) -> bool {
    forall|i: int|
        0 <= i < path.len() - 1 ==> find(raw, #[trigger] path[i]) is Some && parents_of(
            raw,
            path[i],
        ).contains(path[i + 1])
}

/// `chain` walks the parent relation from its first name and returns to a name seen before.
pub open spec fn is_cycle_chain(raw: Seq<RawTemplate>, chain: Seq<Seq<char>>) -> bool {
    &&& chain.len() >= 2
    &&& is_parent_path(raw, chain)
    &&& exists|j: int| 0 <= j < chain.len() - 1 && chain[j] == chain.last()
}

/// `missing` is not a template, yet the parent relation reaches it from `child`.
pub open spec fn reaches_missing(raw: Seq<RawTemplate>, child: Seq<char>, missing: Seq<char>) -> bool {
    &&& find(raw, missing) is None
    &&& exists|path: Seq<Seq<char>>|
        path.len() >= 1 && path[0] == child && path.last() == missing && is_parent_path(
            raw,
            path,
        )
}

/// `table` lists every template once with its resolved bundle.
pub open spec fn is_resolved_table(
    raw: Seq<RawTemplate>,
    table: Seq<(String, EntityComponents)>,
) -> bool {
    &&& forall|j: int|
        0 <= j < table.len() ==> find(raw, (#[trigger] table[j]).0@) is Some && template_resolves(
            raw,
            table[j].0@,
            table[j].1,
        )
    &&& forall|k: int| 0 <= k < raw.len() ==> memo_names(table).contains(#[trigger] raw[k].name@)
    &&& memo_names(table).no_duplicates()
}

proof fn lemma_find_from_found(raw: Seq<RawTemplate>, name: Seq<char>, i: int)
    ensures
        find_from(raw, name, i) matches Some(k) ==> i <= k < raw.len() && raw[k].name@ == name
            && forall|m: int| i <= m < k ==> raw[m].name@ != name,
        find_from(raw, name, i) is None ==> forall|m: int|
            0 <= i <= m < raw.len() ==> raw[m].name@ != name,
    decreases raw.len() - i,
{
    if i < 0 || i >= raw.len() {
    } else if raw[i].name@ == name {
    } else {
        lemma_find_from_found(raw, name, i + 1);
    }
}

/// `find` returns the first template with that name, and `None` only when there is none.
pub proof fn lemma_find(raw: Seq<RawTemplate>, name: Seq<char>)
    ensures
        find(raw, name) matches Some(k) ==> 0 <= k < raw.len() && raw[k].name@ == name && forall|
            m: int,
        |
            0 <= m < k ==> raw[m].name@ != name,
        find(raw, name) is None ==> forall|m: int| 0 <= m < raw.len() ==> raw[m].name@ != name,
{
    lemma_find_from_found(raw, name, 0);
}

/// Resolving with more depth never changes an answer already found.
pub proof fn lemma_resolve_monotone(raw: Seq<RawTemplate>, name: Seq<char>, f: nat, g: nat)
    requires
        f <= g,
        resolve_at(raw, name, f) is Some,
    ensures
        resolve_at(raw, name, g) == resolve_at(raw, name, f),
    decreases f, 0nat,
{
    let k = find(raw, name)->Some_0;
    lemma_fold_monotone(raw, raw[k].template.names(), (f - 1) as nat, (g - 1) as nat);
}

/// Folding parents with more depth never changes an answer already found.
pub proof fn lemma_fold_monotone(raw: Seq<RawTemplate>, ps: Seq<Seq<char>>, f: nat, g: nat)
    requires
        f <= g,
        fold_parents(raw, ps, f) is Some,
    ensures
        fold_parents(raw, ps, g) == fold_parents(raw, ps, f),
    decreases f, ps.len() + 1,
{
    if ps.len() > 0 {
        lemma_fold_monotone(raw, ps.drop_last(), f, g);
        lemma_resolve_monotone(raw, ps.last(), f, g);
    }
}

/// A template resolves to at most one bundle.
pub proof fn lemma_resolution_unique(
    raw: Seq<RawTemplate>,
    name: Seq<char>,
    c1: EntityComponents,
    c2: EntityComponents,
)
    requires
        template_resolves(raw, name, c1),
        template_resolves(raw, name, c2),
    ensures
        c1 == c2,
{
    let f1 = choose|f: nat| resolve_at(raw, name, f) == Some(c1);
    let f2 = choose|f: nat| resolve_at(raw, name, f) == Some(c2);
    if f1 <= f2 {
        lemma_resolve_monotone(raw, name, f1, f2);
    } else {
        lemma_resolve_monotone(raw, name, f2, f1);
    }
}

proof fn lemma_fold_parts(raw: Seq<RawTemplate>, ps: Seq<Seq<char>>, fuel: nat, i: int)
    requires
        fold_parents(raw, ps, fuel) is Some,
        0 <= i < ps.len(),
    ensures
        resolve_at(raw, ps[i], fuel) is Some,
    decreases ps.len(),
{
    if i < ps.len() - 1 {
        lemma_fold_parts(raw, ps.drop_last(), fuel, i);
    }
}

/// A template resolves only if each of its parents resolves one level shallower.
pub proof fn lemma_parent_resolves(raw: Seq<RawTemplate>, name: Seq<char>, p: Seq<char>, fuel: nat)
    requires
        resolve_at(raw, name, fuel) is Some,
        parents_of(raw, name).contains(p),
    ensures
        fuel >= 1,
        resolve_at(raw, p, (fuel - 1) as nat) is Some,
{
    let k = find(raw, name)->Some_0;
    let ps = raw[k].template.names();
    let i = choose|i: int| 0 <= i < ps.len() && ps[i] == p;
    lemma_fold_parts(raw, ps, (fuel - 1) as nat, i);
}

/// If the last name of a parent path never resolves, neither does the first.
proof fn lemma_path_blocks(raw: Seq<RawTemplate>, path: Seq<Seq<char>>)
    requires
        path.len() >= 1,
        is_parent_path(raw, path),
        never_resolves(raw, path.last()),
    ensures
        never_resolves(raw, path[0]),
    decreases path.len(),
{
    if path.len() > 1 {
        let tail = path.subrange(1, path.len() as int);
        assert forall|i: int| 0 <= i < tail.len() - 1 implies find(raw, #[trigger] tail[i]) is Some
            && parents_of(raw, tail[i]).contains(tail[i + 1]) by {
            assert(tail[i] == path[i + 1]);
            assert(tail[i + 1] == path[i + 2]);
        }
        lemma_path_blocks(raw, tail);
        assert forall|f: nat| #[trigger] resolve_at(raw, path[0], f) is None by {
            if resolve_at(raw, path[0], f) is Some {
                assert(parents_of(raw, path[0]).contains(path[1]));
                lemma_parent_resolves(raw, path[0], path[1], f);
                assert(resolve_at(raw, tail[0], (f - 1) as nat) is None);
            }
        }
    }
}

/// No name on a cycle resolves at depth `f`.
proof fn lemma_cycle_blocks_at(raw: Seq<RawTemplate>, chain: Seq<Seq<char>>, j: int, f: nat)
    requires
        is_parent_path(raw, chain),
        chain.len() >= 2,
        0 <= j < chain.len() - 1,
        chain[j] == chain.last(),
    ensures
        forall|i: int| j <= i < chain.len() ==> resolve_at(raw, #[trigger] chain[i], f) is None,
    decreases f,
{
    if f > 0 {
        lemma_cycle_blocks_at(raw, chain, j, (f - 1) as nat);
        assert forall|i: int| j <= i < chain.len() implies resolve_at(
            raw,
            #[trigger] chain[i],
            f,
        ) is None by {
            if resolve_at(raw, chain[i], f) is Some {
                if i < chain.len() - 1 {
                    assert(parents_of(raw, chain[i]).contains(chain[i + 1]));
                    lemma_parent_resolves(raw, chain[i], chain[i + 1], f);
                    assert(resolve_at(raw, chain[i + 1], (f - 1) as nat) is None);
                } else {
                    assert(chain[i] == chain[j]);
                    assert(parents_of(raw, chain[j]).contains(chain[j + 1]));
                    lemma_parent_resolves(raw, chain[j], chain[j + 1], f);
                    assert(resolve_at(raw, chain[j + 1], (f - 1) as nat) is None);
                }
            }
        }
    }
}

/// The first name of a cycle chain never resolves.
pub proof fn lemma_cycle_blocks(raw: Seq<RawTemplate>, chain: Seq<Seq<char>>)
    requires
        is_cycle_chain(raw, chain),
    ensures
        never_resolves(raw, chain[0]),
{
    let j = choose|j: int| 0 <= j < chain.len() - 1 && chain[j] == chain.last();
    assert forall|f: nat| #[trigger] resolve_at(raw, chain[j], f) is None by {
        lemma_cycle_blocks_at(raw, chain, j, f);
    }
    let prefix = chain.subrange(0, j + 1);
    assert forall|i: int| 0 <= i < prefix.len() - 1 implies find(raw, #[trigger] prefix[i]) is Some
        && parents_of(raw, prefix[i]).contains(prefix[i + 1]) by {
        assert(prefix[i] == chain[i]);
        assert(prefix[i + 1] == chain[i + 1]);
    }
    assert(prefix.last() == chain[j]);
    lemma_path_blocks(raw, prefix);
}

/// A path from `child` to a missing name keeps `child` from resolving.
pub proof fn lemma_missing_blocks(raw: Seq<RawTemplate>, child: Seq<char>, missing: Seq<char>)
    requires
        reaches_missing(raw, child, missing),
    ensures
        never_resolves(raw, child),
{
    let path = choose|path: Seq<Seq<char>>|
        path.len() >= 1 && path[0] == child && path.last() == missing && is_parent_path(
            raw,
            path,
        );
    assert forall|f: nat| #[trigger] resolve_at(raw, missing, f) is None by {
        if f > 0 {
            assert(find(raw, missing) is None);
        }
    }
    lemma_path_blocks(raw, path);
}

/// Distinct template names that all exist number at most the templates.
proof fn lemma_distinct_found_bounded(raw: Seq<RawTemplate>, s: Seq<Seq<char>>)
    requires
        s.no_duplicates(),
        forall|i: int| 0 <= i < s.len() ==> find(raw, #[trigger] s[i]) is Some,
    ensures
        s.len() <= raw.len(),
{
    let idx = s.map_values(|n: Seq<char>| find(raw, n)->Some_0);
    assert forall|i: int, j: int|
        0 <= i < idx.len() && 0 <= j < idx.len() && i != j implies idx[i] != idx[j] by {
        lemma_find(raw, s[i]);
        lemma_find(raw, s[j]);
        assert(s[i] != s[j]);
        assert(idx[i] == find(raw, s[i])->Some_0);
        assert(idx[j] == find(raw, s[j])->Some_0);
    }
    assert(idx.no_duplicates());
    idx.unique_seq_to_set();
    assert forall|x: int| idx.to_set().contains(x) implies set_int_range(0, raw.len() as int).contains(
        x,
    ) by {
        let i = choose|i: int| 0 <= i < idx.len() && idx[i] == x;
        lemma_find(raw, s[i]);
    }
    lemma_int_range(0, raw.len() as int);
    lemma_len_subset(idx.to_set(), set_int_range(0, raw.len() as int));
}

/// Every memo entry resolves at depth `fuel`, and memo names are distinct.
pub open spec fn memo_ok(raw: Seq<RawTemplate>, memo: Seq<(String, EntityComponents)>, fuel: nat) -> bool {
    &&& forall|j: int|
        0 <= j < memo.len() ==> resolve_at(raw, (#[trigger] memo[j]).0@, fuel) == Some(memo[j].1)
    &&& memo_names(memo).no_duplicates()
}

/// The names a memo holds, in order.
pub open spec fn memo_names(m: Seq<(String, EntityComponents)>) -> Seq<Seq<char>> {
    m.map_values(|e: (String, EntityComponents)| e.0@)
}

/// `new` holds an entry for every name `old` held.
pub open spec fn memo_keeps(old: Seq<(String, EntityComponents)>, new: Seq<(String, EntityComponents)>) -> bool {
    forall|x: Seq<char>| memo_names(old).contains(x) ==> #[trigger] memo_names(new).contains(x)
}

proof fn lemma_memo_lift(raw: Seq<RawTemplate>, memo: Seq<(String, EntityComponents)>, f: nat, g: nat)
    requires
        memo_ok(raw, memo, f),
        f <= g,
    ensures
        memo_ok(raw, memo, g),
{
    assert forall|j: int| 0 <= j < memo.len() implies resolve_at(
        raw,
        (#[trigger] memo[j]).0@,
        g,
    ) == Some(memo[j].1) by {
        lemma_resolve_monotone(raw, memo[j].0@, f, g);
    }
}

fn memo_get(memo: &Vec<(String, EntityComponents)>, name: &String) -> (found: Option<EntityComponents>)
    ensures
        found matches Some(c) ==> exists|j: int|
            0 <= j < memo@.len() && memo@[j].0@ == name@ && memo@[j].1 == c,
        found is None ==> forall|j: int| 0 <= j < memo@.len() ==> memo@[j].0@ != name@,
{
    let mut i: usize = 0;
    while i < memo.len()
        invariant
            i <= memo.len(),
            forall|j: int| 0 <= j < i ==> memo@[j].0@ != name@,
        decreases memo.len() - i,
    {
        if memo[i].0 == *name {
            return Some(memo[i].1);
        }
        i += 1;
    }
    None
}

fn memo_position(memo: &Vec<(String, EntityComponents)>, name: &String) -> (found: Option<usize>)
    ensures
        found matches Some(i) ==> i < memo@.len() && memo@[i as int].0@ == name@,
        found is None ==> !memo_names(memo@).contains(name@),
{
    let mut i: usize = 0;
    while i < memo.len()
        invariant
            i <= memo.len(),
            forall|j: int| 0 <= j < i ==> memo@[j].0@ != name@,
        decreases memo.len() - i,
    {
        if memo[i].0 == *name {
            return Some(i);
        }
        i += 1;
    }
    proof {
        if memo_names(memo@).contains(name@) {
            lemma_memo_names_has(memo@, name@);
        }
    }
    None
}

fn memo_insert(memo: &mut Vec<(String, EntityComponents)>, name: String, c: EntityComponents)
    requires
        memo_names(old(memo)@).no_duplicates(),
    ensures
        memo_names(final(memo)@).no_duplicates(),
        exists|j: int|
            0 <= j < final(memo)@.len() && final(memo)@[j].0@ == name@ && final(memo)@[j].1 == c,
        forall|j: int|
            0 <= j < final(memo)@.len() ==> (#[trigger] final(memo)@[j]).0@ == name@ && final(memo)@[j].1 == c
                || old(memo)@.contains(final(memo)@[j]),
        memo_keeps(old(memo)@, final(memo)@),
{
    let ghost before = memo@;
    let ghost nv = name@;
    match memo_position(memo, &name) {
        Some(i) => {
            memo.set(i, (name, c));
            proof {
                assert(memo_names(memo@) =~= memo_names(before));
                assert(memo@[i as int].0@ == nv);
                assert forall|j: int|
                    0 <= j < memo@.len() implies (#[trigger] memo@[j]).0@ == nv && memo@[j].1 == c
                    || before.contains(memo@[j]) by {
                    if j != i {
                        assert(before[j] == memo@[j]);
                    }
                }
            }
        },
        None => {
            memo.push((name, c));
            proof {
                assert(memo_names(memo@) =~= memo_names(before).push(nv));
                assert forall|a: int, b: int|
                    0 <= a < memo_names(memo@).len() && 0 <= b < memo_names(memo@).len() && a != b implies memo_names(
                    memo@,
                )[a] != memo_names(memo@)[b] by {
                    if a < before.len() && b < before.len() {
                        assert(memo_names(memo@)[a] == memo_names(before)[a]);
                        assert(memo_names(memo@)[b] == memo_names(before)[b]);
                    } else if a < before.len() {
                        assert(memo_names(memo@)[a] == memo_names(before)[a]);
                        assert(memo_names(before).contains(memo_names(before)[a]));
                    } else if b < before.len() {
                        assert(memo_names(memo@)[b] == memo_names(before)[b]);
                        assert(memo_names(before).contains(memo_names(before)[b]));
                    }
                }
                assert(memo@[before.len() as int].0@ == nv);
                assert forall|x: Seq<char>| memo_names(before).contains(x) implies #[trigger] memo_names(
                    memo@,
                ).contains(x) by {
                    let j = choose|j: int| 0 <= j < memo_names(before).len() && memo_names(before)[j] == x;
                    assert(memo_names(memo@)[j] == x);
                }
                assert forall|j: int|
                    0 <= j < memo@.len() implies (#[trigger] memo@[j]).0@ == nv && memo@[j].1 == c
                    || before.contains(memo@[j]) by {
                    if j < before.len() {
                        assert(before[j] == memo@[j]);
                    }
                }
            }
        },
    }
}

fn find_template(raw: &Vec<RawTemplate>, name: &String) -> (found: Option<usize>)
    ensures
        found matches Some(k) ==> find(raw@, name@) == Some(k as int),
        found is None ==> find(raw@, name@) is None,
{
    let mut i: usize = 0;
    while i < raw.len()
        invariant
            i <= raw.len(),
            forall|m: int| 0 <= m < i ==> raw@[m].name@ != name@,
        decreases raw.len() - i,
    {
        if raw[i].name == *name {
            proof {
                lemma_find(raw@, name@);
            }
            return Some(i);
        }
        i += 1;
    }
    proof {
        lemma_find(raw@, name@);
    }
    None
}

fn stack_contains(stack: &Vec<String>, name: &String) -> (found: Option<usize>)
    ensures
        found matches Some(j) ==> j < stack@.len() && stack@[j as int]@ == name@,
        found is None ==> !names_of(stack@).contains(name@),
{
    let mut i: usize = 0;
    while i < stack.len()
        invariant
            i <= stack.len(),
            forall|m: int| 0 <= m < i ==> stack@[m]@ != name@,
        decreases stack.len() - i,
    {
        if stack[i] == *name {
            return Some(i);
        }
        i += 1;
    }
    None
}

fn clone_names(v: &Vec<String>) -> (out: Vec<String>)
    ensures
        names_of(out@) == names_of(v@),
{
    let mut out: Vec<String> = Vec::new();
    let mut i: usize = 0;
    while i < v.len()
        invariant
            i <= v.len(),
            names_of(out@) =~= names_of(v@).take(i as int),
        decreases v.len() - i,
    {
        let ghost prev = out@;
        out.push(v[i].clone());
        proof {
            lemma_names_push(prev, v@[i as int]);
            lemma_names_take_step(v@, i as int);
        }
        i += 1;
    }
    proof {
        assert(names_of(v@).take(v.len() as int) =~= names_of(v@));
    }
    out
}

/// What a failed resolution reports, and why it is a failure.
pub open spec fn error_explains(raw: Seq<RawTemplate>, child: Seq<char>, e: ImportError) -> bool {
    match e {
        ImportError::UnknownTemplateParent { child: c, parent } => c@ == child && reaches_missing(
            raw,
            child,
            parent@,
        ),
        ImportError::TemplateCycle { chain } => names_of(chain@)[0] == child && is_cycle_chain(
            raw,
            names_of(chain@),
        ),
        _ => false,
    }
}

/// The first failure a depth-first resolution of `name` meets, with `stack` the names already
/// being resolved above it: `(true, chain)` for a cycle, where `chain` is the stack followed by
/// the first name met again; `(false, seq![missing])` for a parent that is not a template.
/// Parents are visited in order, each one's ancestors before the next parent.
pub open spec fn first_failure(raw: Seq<RawTemplate>, stack: Seq<Seq<char>>, name: Seq<char>) -> Option<
    (bool, Seq<Seq<char>>),
>
    decreases raw.len() - stack.len(), 0int, 0int,
{
    if stack.contains(name) {
        Some((true, stack.push(name)))
    } else if find(raw, name) is None {
        Some((false, seq![name]))
    } else if stack.len() >= raw.len() {
        None
    } else {
        first_failure_in(raw, stack.push(name), parents_of(raw, name), 0)
    }
}

/// The first failure met resolving `ps[i..]` in order, under `stack`.
pub open spec fn first_failure_in(
    raw: Seq<RawTemplate>,
    stack: Seq<Seq<char>>,
    ps: Seq<Seq<char>>,
    i: int,
) -> Option<(bool, Seq<Seq<char>>)>
    decreases raw.len() - stack.len(), 1int, ps.len() - i,
{
    if i < 0 || i >= ps.len() || stack.len() > raw.len() {
        None
    } else {
        match first_failure(raw, stack, ps[i]) {
            Some(f) => Some(f),
            None => first_failure_in(raw, stack, ps, i + 1),
        }
    }
}

/// `e` is the error that reports failure `f` met while resolving top-level template `child`.
pub open spec fn reports(e: ImportError, child: Seq<char>, f: (bool, Seq<Seq<char>>)) -> bool {
    match e {
        ImportError::UnknownTemplateParent { child: c, parent } => !f.0 && c@ == child && f.1
            == seq![parent@],
        ImportError::TemplateCycle { chain } => f.0 && names_of(chain@) == f.1,
        _ => false,
    }
}

/// Path condition of the resolution stack: `stack` walks the parent relation from `child`,
/// and `name` is a parent of its last element (or `child` itself on an empty stack).
#[verifier::opaque]
pub open spec fn stack_leads_to(
    raw: Seq<RawTemplate>,
    child: Seq<char>,
    stack: Seq<Seq<char>>,
    name: Seq<char>,
) -> bool {
    &&& is_parent_path(raw, stack.push(name))
    &&& stack.push(name)[0] == child
    &&& stack.no_duplicates()
    &&& forall|i: int| 0 <= i < stack.len() ==> find(raw, #[trigger] stack[i]) is Some
}

proof fn lemma_memo_keeps_trans(
    a: Seq<(String, EntityComponents)>,
    b: Seq<(String, EntityComponents)>,
    c: Seq<(String, EntityComponents)>,
)
    requires
        memo_keeps(a, b),
        memo_keeps(b, c),
    ensures
        memo_keeps(a, c),
{
}

proof fn lemma_memo_names_index(m: Seq<(String, EntityComponents)>, j: int)
    requires
        0 <= j < m.len(),
    ensures
        memo_names(m)[j] == m[j].0@,
        memo_names(m).contains(m[j].0@),
{
    assert(memo_names(m)[j] == m[j].0@);
}

proof fn lemma_memo_names_has(m: Seq<(String, EntityComponents)>, x: Seq<char>)
    requires
        memo_names(m).contains(x),
    ensures
        exists|j: int| 0 <= j < m.len() && m[j].0@ == x,
{
    let j = choose|j: int| 0 <= j < memo_names(m).len() && memo_names(m)[j] == x;
    assert(m[j].0@ == x);
}

proof fn lemma_stack_start(raw: Seq<RawTemplate>, name: Seq<char>)
    ensures
        stack_leads_to(raw, name, Seq::empty(), name),
{
    reveal(stack_leads_to);
    assert(Seq::<Seq<char>>::empty().push(name) =~= seq![name]);
}

proof fn lemma_stack_cycle(
    raw: Seq<RawTemplate>,
    child: Seq<char>,
    stack: Seq<Seq<char>>,
    name: Seq<char>,
    j: int,
)
    requires
        stack_leads_to(raw, child, stack, name),
        0 <= j < stack.len(),
        stack[j] == name,
    ensures
        is_cycle_chain(raw, stack.push(name)),
        stack.push(name)[0] == child,
{
    reveal(stack_leads_to);
    let c = stack.push(name);
    assert(c[j] == c.last());
}

proof fn lemma_stack_missing(
    raw: Seq<RawTemplate>,
    child: Seq<char>,
    stack: Seq<Seq<char>>,
    name: Seq<char>,
)
    requires
        stack_leads_to(raw, child, stack, name),
        find(raw, name) is None,
    ensures
        reaches_missing(raw, child, name),
{
    reveal(stack_leads_to);
    let path = stack.push(name);
    assert(path.last() == name);
}

proof fn lemma_stack_extend(
    raw: Seq<RawTemplate>,
    child: Seq<char>,
    stack: Seq<Seq<char>>,
    name: Seq<char>,
    p: Seq<char>,
)
    requires
        stack_leads_to(raw, child, stack, name),
        find(raw, name) is Some,
        !stack.contains(name),
        parents_of(raw, name).contains(p),
    ensures
        stack_leads_to(raw, child, stack.push(name), p),
        stack.push(name).len() <= raw.len(),
{
    reveal(stack_leads_to);
    let s2 = stack.push(name);
    let s3 = s2.push(p);
    assert forall|m: int| 0 <= m < s3.len() - 1 implies find(raw, #[trigger] s3[m]) is Some
        && parents_of(raw, s3[m]).contains(s3[m + 1]) by {
        if m < s2.len() - 1 {
            assert(s3[m] == s2[m]);
            assert(s3[m + 1] == s2[m + 1]);
        } else {
            assert(s3[m] == name);
            assert(s3[m + 1] == p);
        }
    }
    assert(s3[0] == s2[0]);
    assert forall|m: int| 0 <= m < s2.len() implies find(raw, #[trigger] s2[m]) is Some by {
        if m < stack.len() {
            assert(s2[m] == stack[m]);
        }
    }
    assert(s2.no_duplicates()) by {
        assert forall|a: int, b: int| 0 <= a < s2.len() && 0 <= b < s2.len() && a != b implies s2[a]
            != s2[b] by {
            if a < stack.len() && b < stack.len() {
                assert(s2[a] == stack[a] && s2[b] == stack[b]);
            } else if a < stack.len() {
                assert(s2[a] == stack[a]);
            } else if b < stack.len() {
                assert(s2[b] == stack[b]);
            }
        }
    }
    lemma_distinct_found_bounded(raw, s2);
}

/// A name already on the resolution stack walks into a cycle, so it never resolves.
proof fn lemma_stacked_never_resolves(
    raw: Seq<RawTemplate>,
    child: Seq<char>,
    stack: Seq<Seq<char>>,
    name: Seq<char>,
)
    requires
        stack_leads_to(raw, child, stack, name),
        stack.contains(name),
    ensures
        never_resolves(raw, name),
{
    reveal(stack_leads_to);
    let j = choose|j: int| 0 <= j < stack.len() && stack[j] == name;
    let c = stack.push(name);
    let sub = c.subrange(j, c.len() as int);
    assert forall|i: int| 0 <= i < sub.len() - 1 implies find(raw, #[trigger] sub[i]) is Some
        && parents_of(raw, sub[i]).contains(sub[i + 1]) by {
        assert(sub[i] == c[j + i]);
        assert(sub[i + 1] == c[j + i + 1]);
    }
    assert(sub[0] == name);
    assert(sub.last() == name);
    assert(is_cycle_chain(raw, sub));
    lemma_cycle_blocks(raw, sub);
}

/// A name that resolves meets no failure, whatever stack leads to it.
proof fn lemma_no_failure(
    raw: Seq<RawTemplate>,
    child: Seq<char>,
    stack: Seq<Seq<char>>,
    name: Seq<char>,
    f: nat,
)
    requires
        stack_leads_to(raw, child, stack, name),
        resolve_at(raw, name, f) is Some,
    ensures
        first_failure(raw, stack, name) is None,
    decreases raw.len() - stack.len(), 0int, 0int,
{
    if stack.contains(name) {
        lemma_stacked_never_resolves(raw, child, stack, name);
        assert(resolve_at(raw, name, f) is None);
    } else if find(raw, name) is None {
    } else if stack.len() >= raw.len() {
    } else {
        lemma_no_failure_in(raw, child, stack, name, f, 0);
    }
}

proof fn lemma_no_failure_in(
    raw: Seq<RawTemplate>,
    child: Seq<char>,
    stack: Seq<Seq<char>>,
    name: Seq<char>,
    f: nat,
    i: int,
)
    requires
        stack_leads_to(raw, child, stack, name),
        !stack.contains(name),
        find(raw, name) is Some,
        stack.len() < raw.len(),
        resolve_at(raw, name, f) is Some,
        0 <= i,
    ensures
        first_failure_in(raw, stack.push(name), parents_of(raw, name), i) is None,
    decreases raw.len() - stack.push(name).len(), 1int, parents_of(raw, name).len() - i,
{
    let ps = parents_of(raw, name);
    if i < ps.len() {
        assert(ps.contains(ps[i]));
        lemma_stack_extend(raw, child, stack, name, ps[i]);
        lemma_parent_resolves(raw, name, ps[i], f);
        lemma_no_failure(raw, child, stack.push(name), ps[i], (f - 1) as nat);
        lemma_no_failure_in(raw, child, stack, name, f, i + 1);
    }
}

fn resolve_template(
    name: &String,
    child: &String,
    raw: &Vec<RawTemplate>,
    stack: &mut Vec<String>,
    memo: &mut Vec<(String, EntityComponents)>,
    Ghost(fuel): Ghost<nat>,
) -> (res: (Result<EntityComponents, ImportError>, Ghost<nat>))
    requires
        memo_ok(raw@, old(memo)@, fuel),
        stack_leads_to(raw@, child@, names_of(old(stack)@), name@),
    ensures
        res.1@ >= fuel,
        res.0 is Ok ==> memo_ok(raw@, final(memo)@, res.1@),
        res.0 is Ok ==> memo_keeps(old(memo)@, final(memo)@),
        res.0 is Ok ==> memo_names(final(memo)@).contains(name@),
        res.0 is Ok ==> names_of(final(stack)@) == names_of(old(stack)@),
        res.0 matches Ok(c) ==> resolve_at(raw@, name@, res.1@) == Some(c),
        res.0 matches Err(e) ==> error_explains(raw@, child@, e) && never_resolves(raw@, child@),
        res.0 is Ok ==> first_failure(raw@, names_of(old(stack)@), name@) is None,
        res.0 matches Err(e) ==> first_failure(raw@, names_of(old(stack)@), name@) is Some
            && reports(e, child@, first_failure(raw@, names_of(old(stack)@), name@)->Some_0),
        !memo_names(old(memo)@).contains(name@) && names_of(old(stack)@).contains(name@) ==> {
            &&& res.0 matches Err(ImportError::TemplateCycle { chain })
            &&& names_of(chain@) == names_of(old(stack)@).push(name@)
            &&& final(stack)@ == old(stack)@
            &&& final(memo)@ == old(memo)@
        },
    decreases raw@.len() - old(stack)@.len(),
{
    let ghost old_memo = memo@;
    let ghost stack_names = names_of(stack@);
    if let Some(resolved) = memo_get(memo, name) {
        proof {
            let j = choose|j: int| 0 <= j < memo@.len() && memo@[j].0@ == name@ && memo@[j].1 == resolved;
            lemma_memo_names_index(memo@, j);
            assert(resolve_at(raw@, name@, fuel) == Some(resolved));
            lemma_no_failure(raw@, child@, stack_names, name@, fuel);
        }
        return (Ok(resolved), Ghost(fuel));
    }
    proof {
        if memo_names(memo@).contains(name@) {
            lemma_memo_names_has(memo@, name@);
        }
    }
    if let Some(j) = stack_contains(stack, name) {
        let mut chain = clone_names(stack);
        let ghost prev = chain@;
        chain.push(name.clone());
        proof {
            lemma_names_push(prev, *name);
            assert(stack_names[j as int] == name@);
            lemma_stack_cycle(raw@, child@, stack_names, name@, j as int);
            lemma_cycle_blocks(raw@, names_of(chain@));
            assert(stack_names.contains(name@));
        }
        return (Err(ImportError::TemplateCycle { chain }), Ghost(fuel));
    }
    let k = match find_template(raw, name) {
        Some(k) => k,
        None => {
            proof {
                lemma_stack_missing(raw@, child@, stack_names, name@);
                lemma_missing_blocks(raw@, child@, name@);
            }
            return (
                Err(ImportError::UnknownTemplateParent { child: child.clone(), parent: name.clone() }),
                Ghost(fuel),
            );
        },
    };
    proof {
        lemma_find(raw@, name@);
    }
    proof {
        reveal(stack_leads_to);
        assert(stack_names.no_duplicates());
        assert forall|m: int| 0 <= m < stack_names.len() implies find(raw@, #[trigger] stack_names[m]) is Some by {}
        let s2 = stack_names.push(name@);
        assert(s2.no_duplicates()) by {
            assert forall|a: int, b: int| 0 <= a < s2.len() && 0 <= b < s2.len() && a != b implies s2[a]
                != s2[b] by {
                if a < stack_names.len() && b < stack_names.len() {
                    assert(s2[a] == stack_names[a] && s2[b] == stack_names[b]);
                } else if a < stack_names.len() {
                    assert(s2[a] == stack_names[a]);
                } else if b < stack_names.len() {
                    assert(s2[b] == stack_names[b]);
                }
            }
        }
        assert forall|m: int| 0 <= m < s2.len() implies find(raw@, #[trigger] s2[m]) is Some by {
            if m < stack_names.len() {
                assert(s2[m] == stack_names[m]);
            }
        }
        lemma_distinct_found_bounded(raw@, s2);
    }
    let ghost prev_stack = stack@;
    stack.push(name.clone());
    let ghost pushed = names_of(stack@);
    proof {
        lemma_names_push(prev_stack, *name);
    }
    let entry = &raw[k];
    let parent_names = entry.template.names_vec();
    let ghost ps = entry.template.names();
    let mut base = EntityComponents::default();
    let ghost mut g: nat = fuel;
    let mut i: usize = 0;
    while i < parent_names.len()
        invariant
            i <= parent_names.len(),
            names_of(parent_names@) == ps,
            ps == parents_of(raw@, name@),
            find(raw@, name@) == Some(k as int),
            g >= fuel,
            memo_ok(raw@, memo@, g),
            memo_keeps(old_memo, memo@),
            names_of(stack@) == pushed,
            pushed == stack_names.push(name@),
            stack_leads_to(raw@, child@, stack_names, name@),
            !stack_names.contains(name@),
            stack_names.len() == old(stack)@.len(),
            fold_parents(raw@, ps.take(i as int), g) == Some(base),
            stack_names.len() < raw@.len(),
            names_of(old(stack)@) == stack_names,
            first_failure(raw@, stack_names, name@) == first_failure_in(raw@, pushed, ps, i as int),
        decreases parent_names.len() - i,
    {
        let ghost p = ps[i as int];
        proof {
            assert(names_of(parent_names@)[i as int] == parent_names@[i as int]@);
            assert(ps.contains(p));
            lemma_stack_extend(raw@, child@, stack_names, name@, p);
        }
        let ghost memo_before = memo@;
        let (r, Ghost(g2)) = resolve_template(&parent_names[i], child, raw, stack, memo, Ghost(g));
        match r {
            Err(e) => {
                proof {
                    assert(first_failure(raw@, pushed, p) is Some);
                    assert(first_failure_in(raw@, pushed, ps, i as int) == first_failure(raw@, pushed, p));
                }
                return (Err(e), Ghost(g2));
            },
            Ok(pc) => {
                proof {
                    assert(first_failure(raw@, pushed, p) is None);
                    if i > 0 {
                        lemma_fold_monotone(raw@, ps.take(i as int), g, g2);
                    }
                    assert(ps.take(i as int + 1).drop_last() =~= ps.take(i as int));
                    assert(ps.take(i as int + 1).last() == p);
                    lemma_memo_keeps_trans(old_memo, memo_before, memo@);
                }
                base = merge_components(&base, &pc);
                proof {
                    g = g2;
                }
            },
        }
        i += 1;
    }
    let merged = merge_components(&base, &entry.components);
    proof {
        assert(first_failure_in(raw@, pushed, ps, parent_names.len() as int) is None);
        assert(ps.take(parent_names.len() as int) =~= ps);
        assert(resolve_at(raw@, name@, g + 1) == Some(merged));
        lemma_memo_lift(raw@, memo@, g, g + 1);
    }
    let ghost before_insert = memo@;
    memo_insert(memo, name.clone(), merged);
    proof {
        assert forall|j: int| 0 <= j < memo@.len() implies resolve_at(
            raw@,
            (#[trigger] memo@[j]).0@,
            g + 1,
        ) == Some(memo@[j].1) by {
            if !(memo@[j].0@ == name@ && memo@[j].1 == merged) {
                let a = choose|a: int| 0 <= a < before_insert.len() && before_insert[a] == memo@[j];
                assert(resolve_at(raw@, before_insert[a].0@, g + 1) == Some(before_insert[a].1));
            }
        }
        lemma_memo_keeps_trans(old_memo, before_insert, memo@);
        let j = choose|j: int| 0 <= j < memo@.len() && memo@[j].0@ == name@ && memo@[j].1 == merged;
        lemma_memo_names_index(memo@, j);
    }
    let ghost full = stack@;
    stack.pop();
    proof {
        assert(names_of(full) == stack_names.push(name@));
        assert forall|j: int| 0 <= j < stack_names.len() implies names_of(stack@)[j] == stack_names[j] by {
            assert(stack@[j] == full[j]);
            assert(names_of(full)[j] == full[j]@);
        }
        assert(names_of(stack@) =~= stack_names);
    }
    (Ok(merged), Ghost(g + 1))
}

/// Resolves every template of `raw`.
///
/// Succeeds exactly when every template resolves, and then returns each template name once with
/// its resolved bundle. A failure comes from the first template, in order, that does not
/// resolve, and reports the first failure met resolving it depth first, parents in order: the
/// missing parent, or the chain of names being resolved followed by the first one met again.
pub fn resolve_all_templates(raw: &Vec<RawTemplate>) -> (res: Result<
    Vec<(String, EntityComponents)>,
    ImportError,
>)
    ensures
        res is Ok <==> templates_well_formed(raw@),
        res matches Ok(table) ==> is_resolved_table(raw@, table@),
        res matches Err(e) ==> exists|k: int|
            0 <= k < raw@.len() && error_explains(raw@, (#[trigger] raw@[k]).name@, e)
                && first_failure(raw@, Seq::empty(), raw@[k].name@) is Some && reports(
                    e,
                    raw@[k].name@,
                    first_failure(raw@, Seq::empty(), raw@[k].name@)->Some_0,
                ) && never_resolves(raw@, raw@[k].name@) && forall|a: int|
                0 <= a < k ==> !never_resolves(raw@, #[trigger] raw@[a].name@),
{
    let mut memo: Vec<(String, EntityComponents)> = Vec::new();
    let ghost mut g: nat = 0;
    proof {
        assert(memo_names(memo@) =~= Seq::<Seq<char>>::empty());
    }
    let mut k: usize = 0;
    while k < raw.len()
        invariant
            k <= raw.len(),
            memo_ok(raw@, memo@, g),
            forall|a: int| 0 <= a < k ==> memo_names(memo@).contains(#[trigger] raw@[a].name@),
        decreases raw.len() - k,
    {
        let mut stack: Vec<String> = Vec::new();
        proof {
            assert(names_of(stack@) =~= Seq::<Seq<char>>::empty());
            lemma_stack_start(raw@, raw@[k as int].name@);
        }
        let ghost before = memo@;
        let (r, Ghost(g2)) = resolve_template(&raw[k].name, &raw[k].name, raw, &mut stack, &mut memo, Ghost(g));
        match r {
            Err(e) => {
                proof {
                    assert(!templates_well_formed(raw@)) by {
                        assert(never_resolves(raw@, raw@[k as int].name@));
                    }
                    assert forall|a: int| 0 <= a < k implies !never_resolves(raw@, #[trigger] raw@[a].name@) by {
                        assert(memo_names(before).contains(raw@[a].name@));
                        lemma_memo_names_has(before, raw@[a].name@);
                        let j = choose|j: int| 0 <= j < before.len() && before[j].0@ == raw@[a].name@;
                        assert(resolve_at(raw@, before[j].0@, g) is Some);
                    }
                }
                return Err(e);
            },
            Ok(_) => {
                proof {
                    g = g2;
                    assert forall|a: int| 0 <= a < k + 1 implies memo_names(memo@).contains(
                        #[trigger] raw@[a].name@,
                    ) by {
                        if a < k {
                            assert(memo_names(before).contains(raw@[a].name@));
                        }
                    }
                }
            },
        }
        k += 1;
    }
    proof {
        assert forall|a: int| 0 <= a < raw@.len() implies !never_resolves(raw@, #[trigger] raw@[a].name@) by {
            assert(memo_names(memo@).contains(raw@[a].name@));
            lemma_memo_names_has(memo@, raw@[a].name@);
            let j = choose|j: int| 0 <= j < memo@.len() && memo@[j].0@ == raw@[a].name@;
            assert(resolve_at(raw@, memo@[j].0@, g) is Some);
        }
        assert forall|j: int| 0 <= j < memo@.len() implies find(raw@, (#[trigger] memo@[j]).0@) is Some
            && template_resolves(raw@, memo@[j].0@, memo@[j].1) by {
            assert(resolve_at(raw@, memo@[j].0@, g) == Some(memo@[j].1));
        }
    }
    Ok(memo)
}

} // verus!
