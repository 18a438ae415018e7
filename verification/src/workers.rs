//! The fallback without a main file: every document is extracted on its
//! own, and the list of documents can be split among workers.

use crate::completion::{facts, Completion, Fact};
use crate::parser::{document_facts, lemma_run_same, single_facts, single_pass_with};
use crate::traverse::Walk;
use crate::patterns::Registry;
use crate::sources::Sources;
use crate::text::texts;
use crate::Config;
use vstd::prelude::*;
use vstd::multiset::Multiset;
use vstd::seq_lib::lemma_multiset_commutative;
use vstd::string::*;

verus! {

/// Where chunk `i` starts when `n` items are split into `t` contiguous
/// chunks of balanced size: the first `n % t` chunks hold one item more
/// than the others.
pub open spec fn chunk_start(n: nat, t: nat, i: nat) -> nat {
    i * (n / t) + if i < n % t {
        i
    } else {
        n % t
    }
}

/// The number of chunks for a configured number of workers.
pub open spec fn chunk_count(workers: nat) -> nat {
    if workers == 0 {
        1
    } else {
        workers
    }
}

/// The chunks are contiguous, cover all items, and differ in size by at
/// most one.
pub proof fn lemma_chunks(n: nat, t: nat, i: nat)
    requires
        t > 0,
        i < t,
    ensures
        chunk_start(n, t, 0) == 0,
        chunk_start(n, t, t) == n,
        chunk_start(n, t, i) <= chunk_start(n, t, i + 1) <= n,
        n / t <= chunk_start(n, t, i + 1) - chunk_start(n, t, i) <= n / t + 1,
{
    let base = n / t;
    let extra = n % t;
    assert(n == t * base + extra) by (nonlinear_arith)
        requires
            t > 0,
            base == n / t,
            extra == n % t,
    ;
    assert(0 <= extra < t) by (nonlinear_arith)
        requires
            t > 0,
            extra == n % t,
    ;
    assert((i + 1) * base == i * base + base) by (nonlinear_arith);
    assert((i + 1) * base <= t * base) by (nonlinear_arith)
        requires
            i + 1 <= t,
            base >= 0,
    ;
    assert(0 * base == 0);
}

/// Splits `n` items among the workers: the bounds of each worker's chunk,
/// in order. No workers count as one.
pub fn partition(n: usize, workers: usize) -> (r: Vec<(usize, usize)>)
    ensures
        r@.len() == chunk_count(workers as nat),
        forall|i: int|
            0 <= i < r@.len() ==> (#[trigger] r@[i]).0 == chunk_start(
                n as nat,
                chunk_count(workers as nat),
                i as nat,
            ) && r@[i].1 == chunk_start(n as nat, chunk_count(workers as nat), (i + 1) as nat),
{
    let t: usize = if workers == 0 {
        1
    } else {
        workers
    };
    let base: usize = n / t;
    let extra: usize = n % t;
    let mut out: Vec<(usize, usize)> = Vec::new();
    let mut start: usize = 0;
    let mut i: usize = 0;
    assert(0 * (n as nat / t as nat) == 0);
    while i < t
        invariant
            i <= t,
            t == chunk_count(workers as nat),
            t > 0,
            base == n / t,
            extra == n % t,
            start == chunk_start(n as nat, t as nat, i as nat),
            out@.len() == i,
            forall|k: int|
                0 <= k < i ==> (#[trigger] out@[k]).0 == chunk_start(n as nat, t as nat, k as nat)
                    && out@[k].1 == chunk_start(n as nat, t as nat, (k + 1) as nat),
        decreases t - i,
    {
        proof {
            lemma_chunks(n as nat, t as nat, i as nat);
            assert((i + 1) * (n as nat / t as nat) == i * (n as nat / t as nat) + (n as nat
                / t as nat)) by (nonlinear_arith);
        }
        let size: usize = if i < extra {
            base + 1
        } else {
            base
        };
        out.push((start, start + size));
        start = start + size;
        i = i + 1;
    }
    out
}

/// The completions of the documents at `paths`, each extracted on its own
/// with the matchers `reg`, in order.
pub open spec fn flat_facts(
    files: Seq<(Seq<char>, Seq<char>)>,
    reg: Registry,
    paths: Seq<Seq<char>>,
    cfg: Config,
) -> Seq<Fact>
    decreases paths.len(),
{
    if paths.len() == 0 {
        Seq::empty()
    } else {
        flat_facts(files, reg, paths.drop_last(), cfg) + single_facts(
            files,
            reg,
            paths.last(),
            cfg,
        )
    }
}

/// Extracting a list of documents one by one is extracting its first part
/// and then its second part.
pub proof fn lemma_flat_concat(
    files: Seq<(Seq<char>, Seq<char>)>,
    reg: Registry,
    a: Seq<Seq<char>>,
    b: Seq<Seq<char>>,
    cfg: Config,
)
    ensures
        flat_facts(files, reg, a + b, cfg) == flat_facts(files, reg, a, cfg) + flat_facts(
            files,
            reg,
            b,
            cfg,
        ),
    decreases b.len(),
{
    if b.len() == 0 {
        assert(a + b == a);
    } else {
        assert((a + b).drop_last() == a + b.drop_last());
        lemma_flat_concat(files, reg, a, b.drop_last(), cfg);
    }
}

/// The completions of the documents at `paths`, each extracted on its own
/// with the registry for `cfg`, in order: what extracting them one after the
/// other gathers.
pub open spec fn one_by_one(files: Seq<(Seq<char>, Seq<char>)>, paths: Seq<Seq<char>>, cfg: Config) -> Seq<
    Fact,
>
    decreases paths.len(),
{
    if paths.len() == 0 {
        Seq::empty()
    } else {
        one_by_one(files, paths.drop_last(), cfg) + document_facts(files, paths.last(), cfg)
    }
}

/// Extracting documents one after the other, each with a registry of its
/// own, gathers what extracting them with one registry gathers, and nothing
/// where the patterns cannot be had.
pub proof fn lemma_one_by_one(files: Seq<(Seq<char>, Seq<char>)>, paths: Seq<Seq<char>>, cfg: Config)
    ensures
        Registry::buildable(cfg) ==> one_by_one(files, paths, cfg) == flat_facts(
            files,
            Registry::of(cfg),
            paths,
            cfg,
        ),
        !Registry::buildable(cfg) ==> one_by_one(files, paths, cfg).len() == 0,
    decreases paths.len(),
{
    if paths.len() > 0 {
        lemma_one_by_one(files, paths.drop_last(), cfg);
    }
}

/// Extracting documents one by one gives the same under two configurations
/// that turn on the same categories.
pub proof fn lemma_flat_same(
    files: Seq<(Seq<char>, Seq<char>)>,
    reg: Registry,
    paths: Seq<Seq<char>>,
    a: Config,
    b: Config,
)
    requires
        a.same_toggles(b),
    ensures
        flat_facts(files, reg, paths, a) == flat_facts(files, reg, paths, b),
    decreases paths.len(),
{
    if paths.len() > 0 {
        lemma_flat_same(files, reg, paths.drop_last(), a, b);
        lemma_run_same(files, Walk::at(reg, paths.last(), a), b);
        assert(Walk::at(reg, paths.last(), a).under(b) == Walk::at(reg, paths.last(), b));
    }
}

/// Extracts the documents at `paths[from..to]`, each on its own.
fn flat_range(
    tree: &Sources,
    reg: &Registry,
    paths: &Vec<String>,
    from: usize,
    to: usize,
    cfg: &Config,
) -> (r: Vec<Completion>)
    requires
        from <= to <= paths@.len(),
    ensures
        facts(r@) == flat_facts(
            tree@,
            *reg,
            texts(paths@).subrange(from as int, to as int),
            *cfg,
        ),
{
    let mut out: Vec<Completion> = Vec::new();
    let ghost all = texts(paths@);
    let mut i: usize = from;
    assert(all.subrange(from as int, from as int) == Seq::<Seq<char>>::empty());
    while i < to
        invariant
            from <= i <= to <= paths@.len(),
            all == texts(paths@),
            facts(out@) == flat_facts(tree@, *reg, all.subrange(from as int, i as int), *cfg),
        decreases to - i,
    {
        let ghost before = out@;
        let mut more = single_pass_with(tree, reg, paths[i].as_str(), cfg);
        let ghost added = more@;
        out.append(&mut more);
        assert(facts(out@) == facts(before) + facts(added));
        assert(all.subrange(from as int, i + 1).drop_last() == all.subrange(
            from as int,
            i as int,
        ));
        i = i + 1;
    }
    out
}

/// Extracts the documents at `paths`, each on its own with the matchers
/// `reg`, and gathers their completions in order.
pub fn flat_extract(tree: &Sources, reg: &Registry, paths: &Vec<String>, cfg: &Config) -> (r: Vec<
    Completion,
>)
    ensures
        facts(r@) == flat_facts(tree@, *reg, texts(paths@), *cfg),
{
    assert(texts(paths@).subrange(0, paths@.len() as int) == texts(paths@));
    flat_range(tree, reg, paths, 0, paths.len(), cfg)
}

/// Splits the documents at `paths` among the configured number of workers,
/// extracts each worker's chunk, and gathers the completions chunk by chunk.
/// The result is that of extracting all documents one by one.
pub fn distribute(tree: &Sources, reg: &Registry, paths: &Vec<String>, cfg: &Config) -> (r: Vec<
    Completion,
>)
    ensures
        facts(r@) == flat_facts(tree@, *reg, texts(paths@), *cfg),
{
    let chunks = partition(paths.len(), cfg.threads);
    let ghost n = paths@.len();
    let ghost t = chunk_count(cfg.threads as nat);
    let ghost all = texts(paths@);
    let mut out: Vec<Completion> = Vec::new();
    let mut i: usize = 0;
    assert(0 * (n / t) == 0);
    assert(all.subrange(0, 0) == Seq::<Seq<char>>::empty());
    while i < chunks.len()
        invariant
            i <= chunks@.len(),
            chunks@.len() == t,
            t > 0,
            n == paths@.len(),
            all == texts(paths@),
            forall|k: int|
                0 <= k < chunks@.len() ==> (#[trigger] chunks@[k]).0 == chunk_start(n, t, k as nat)
                    && chunks@[k].1 == chunk_start(n, t, (k + 1) as nat),
            facts(out@) == flat_facts(
                tree@,
                *reg,
                all.subrange(0, chunk_start(n, t, i as nat) as int),
                *cfg,
            ),
        decreases chunks@.len() - i,
    {
        proof {
            lemma_chunks(n, t, i as nat);
        }
        let (from, to) = chunks[i];
        let ghost before = out@;
        let mut more = flat_range(tree, reg, paths, from, to, cfg);
        let ghost added = more@;
        out.append(&mut more);
        proof {
            assert(facts(out@) == facts(before) + facts(added));
            assert(all.subrange(0, from as int) + all.subrange(from as int, to as int)
                == all.subrange(0, to as int));
            lemma_flat_concat(
                tree@,
                *reg,
                all.subrange(0, from as int),
                all.subrange(from as int, to as int),
                *cfg,
            );
        }
        i = i + 1;
    }
    proof {
        lemma_chunks(n, t, 0);
        assert(all.subrange(0, n as int) == all);
    }
    out
}

/// The documents of chunk `i` when `paths` is split among `t` workers.
pub open spec fn chunk(paths: Seq<Seq<char>>, t: nat, i: nat) -> Seq<Seq<char>> {
    paths.subrange(
        chunk_start(paths.len(), t, i) as int,
        chunk_start(paths.len(), t, i + 1) as int,
    )
}

/// The completions of chunk `i`, as a bag.
pub open spec fn chunk_bag(
    files: Seq<(Seq<char>, Seq<char>)>,
    reg: Registry,
    paths: Seq<Seq<char>>,
    cfg: Config,
    t: nat,
    i: nat,
) -> Multiset<Fact> {
    flat_facts(files, reg, chunk(paths, t, i), cfg).to_multiset()
}

/// What is gathered when the workers of the chunks `order` finish one
/// after the other: each worker's completions, appended as it finishes.
pub open spec fn gathered(
    files: Seq<(Seq<char>, Seq<char>)>,
    reg: Registry,
    paths: Seq<Seq<char>>,
    cfg: Config,
    t: nat,
    order: Seq<nat>,
) -> Seq<Fact>
    decreases order.len(),
{
    if order.len() == 0 {
        Seq::empty()
    } else {
        gathered(files, reg, paths, cfg, t, order.drop_last()) + flat_facts(
            files,
            reg,
            chunk(paths, t, order.last()),
            cfg,
        )
    }
}

/// The bags of the chunks below `upto` that occur in `order`, added up.
pub open spec fn picked(
    files: Seq<(Seq<char>, Seq<char>)>,
    reg: Registry,
    paths: Seq<Seq<char>>,
    cfg: Config,
    t: nat,
    order: Seq<nat>,
    upto: nat,
) -> Multiset<Fact>
    decreases upto,
{
    if upto == 0 {
        Multiset::empty()
    } else {
        picked(files, reg, paths, cfg, t, order, (upto - 1) as nat).add(
            if order.contains((upto - 1) as nat) {
                chunk_bag(files, reg, paths, cfg, t, (upto - 1) as nat)
            } else {
                Multiset::empty()
            },
        )
    }
}

proof fn lemma_empty_bag()
    ensures
        Seq::<Fact>::empty().to_multiset() == Multiset::<Fact>::empty(),
{
    let e = Seq::<Fact>::empty();
    lemma_multiset_commutative(e, e);
    assert(e + e == e);
    assert(e.to_multiset() =~= Multiset::<Fact>::empty());
}

proof fn lemma_pick_last(
    files: Seq<(Seq<char>, Seq<char>)>,
    reg: Registry,
    paths: Seq<Seq<char>>,
    cfg: Config,
    t: nat,
    order: Seq<nat>,
    upto: nat,
)
    requires
        order.len() > 0,
        order.no_duplicates(),
    ensures
        picked(files, reg, paths, cfg, t, order, upto) == picked(
            files,
            reg,
            paths,
            cfg,
            t,
            order.drop_last(),
            upto,
        ).add(
            if order.last() < upto {
                chunk_bag(files, reg, paths, cfg, t, order.last())
            } else {
                Multiset::empty()
            },
        ),
    decreases upto,
{
    let rest = order.drop_last();
    let j = order.last();
    if upto == 0 {
        assert(picked(files, reg, paths, cfg, t, order, upto) =~= picked(
            files,
            reg,
            paths,
            cfg,
            t,
            rest,
            upto,
        ).add(Multiset::empty()));
    } else {
        let i = (upto - 1) as nat;
        lemma_pick_last(files, reg, paths, cfg, t, order, i);
        assert(order.contains(i) <==> rest.contains(i) || i == j) by {
            if rest.contains(i) {
                let k = choose|k: int| 0 <= k < rest.len() && rest[k] == i;
                assert(order[k] == i);
            }
            if order.contains(i) && i != j {
                let k = choose|k: int| 0 <= k < order.len() && order[k] == i;
                assert(rest[k] == i);
            }
            if i == j {
                assert(order[order.len() - 1] == j);
            }
        }
        assert(i == j ==> !rest.contains(i)) by {
            if i == j && rest.contains(i) {
                let k = choose|k: int| 0 <= k < rest.len() && rest[k] == i;
                assert(order[k] == order[order.len() - 1]);
            }
        }
        assert(picked(files, reg, paths, cfg, t, order, upto) =~= picked(
            files,
            reg,
            paths,
            cfg,
            t,
            rest,
            upto,
        ).add(
            if j < upto {
                chunk_bag(files, reg, paths, cfg, t, j)
            } else {
                Multiset::empty()
            },
        ));
    }
}

proof fn lemma_gathered_is_picked(
    files: Seq<(Seq<char>, Seq<char>)>,
    reg: Registry,
    paths: Seq<Seq<char>>,
    cfg: Config,
    t: nat,
    order: Seq<nat>,
)
    requires
        order.no_duplicates(),
        forall|k: int| 0 <= k < order.len() ==> order[k] < t,
    ensures
        gathered(files, reg, paths, cfg, t, order).to_multiset() == picked(
            files,
            reg,
            paths,
            cfg,
            t,
            order,
            t,
        ),
    decreases order.len(),
{
    if order.len() == 0 {
        lemma_none_picked(files, reg, paths, cfg, t, order, t);
        lemma_empty_bag();
    } else {
        let rest = order.drop_last();
        lemma_gathered_is_picked(files, reg, paths, cfg, t, rest);
        lemma_pick_last(files, reg, paths, cfg, t, order, t);
        lemma_multiset_commutative(
            gathered(files, reg, paths, cfg, t, rest),
            flat_facts(files, reg, chunk(paths, t, order.last()), cfg),
        );
    }
}

proof fn lemma_none_picked(
    files: Seq<(Seq<char>, Seq<char>)>,
    reg: Registry,
    paths: Seq<Seq<char>>,
    cfg: Config,
    t: nat,
    order: Seq<nat>,
    upto: nat,
)
    requires
        order.len() == 0,
    ensures
        picked(files, reg, paths, cfg, t, order, upto) == Multiset::<Fact>::empty(),
    decreases upto,
{
    if upto > 0 {
        lemma_none_picked(files, reg, paths, cfg, t, order, (upto - 1) as nat);
        assert(picked(files, reg, paths, cfg, t, order, upto) =~= Multiset::<Fact>::empty());
    }
}

proof fn lemma_all_picked(
    files: Seq<(Seq<char>, Seq<char>)>,
    reg: Registry,
    paths: Seq<Seq<char>>,
    cfg: Config,
    t: nat,
    order: Seq<nat>,
    upto: nat,
)
    requires
        t > 0,
        upto <= t,
        forall|i: nat| i < upto ==> order.contains(i),
    ensures
        picked(files, reg, paths, cfg, t, order, upto) == flat_facts(
            files,
            reg,
            paths.subrange(0, chunk_start(paths.len(), t, upto) as int),
            cfg,
        ).to_multiset(),
    decreases upto,
{
    let n = paths.len();
    if upto == 0 {
        assert(0 * (n / t) == 0);
        assert(paths.subrange(0, 0) == Seq::<Seq<char>>::empty());
        lemma_empty_bag();
    } else {
        let i = (upto - 1) as nat;
        lemma_all_picked(files, reg, paths, cfg, t, order, i);
        lemma_chunks(n, t, i);
        let from = chunk_start(n, t, i) as int;
        let to = chunk_start(n, t, upto) as int;
        assert(paths.subrange(0, from) + paths.subrange(from, to) == paths.subrange(0, to));
        lemma_flat_concat(files, reg, paths.subrange(0, from), paths.subrange(from, to), cfg);
        lemma_multiset_commutative(
            flat_facts(files, reg, paths.subrange(0, from), cfg),
            flat_facts(files, reg, paths.subrange(from, to), cfg),
        );
    }
}

/// Whatever the order in which the workers finish, what is gathered from
/// their chunks holds the same completions, each as often, as the extraction
/// of all documents one by one.
pub proof fn lemma_partition_keeps_completions(
    files: Seq<(Seq<char>, Seq<char>)>,
    reg: Registry,
    paths: Seq<Seq<char>>,
    cfg: Config,
    t: nat,
    order: Seq<nat>,
)
    requires
        t > 0,
        order.no_duplicates(),
        forall|k: int| 0 <= k < order.len() ==> order[k] < t,
        forall|i: nat| i < t ==> order.contains(i),
    ensures
        gathered(files, reg, paths, cfg, t, order).to_multiset() == flat_facts(
            files,
            reg,
            paths,
            cfg,
        ).to_multiset(),
{
    lemma_gathered_is_picked(files, reg, paths, cfg, t, order);
    lemma_all_picked(files, reg, paths, cfg, t, order, t);
    lemma_chunks(paths.len(), t, 0);
    assert(paths.subrange(0, paths.len() as int) == paths);
}

} // verus!
