use vstd::prelude::*;

verus! {

/// Well-formed union-find parent table: every parent pointer goes to a
/// smaller index (or to the entry itself, which is then a root).  This
/// shape rules out cycles, so following parents always terminates.
pub open spec fn uf_wf(s: Seq<usize>) -> bool {
    forall|i: int| 0 <= i < s.len() ==> (#[trigger] s[i]) <= i
}

/// The representative reached from `i` by repeatedly following parent
/// pointers until an entry points to itself.
pub open spec fn root_of(s: Seq<usize>, i: int) -> int
    decreases i,
{
    if 0 <= i < s.len() {
        if s[i] < i {
            root_of(s, s[i] as int)
        } else {
            i
        }
    } else {
        i
    }
}

/// Number of roots (self-parent entries) among the first `n` entries.
pub open spec fn root_count(s: Seq<usize>, n: int) -> int
    decreases n,
{
    if n <= 0 {
        0
    } else {
        root_count(s, n - 1) + (if s[n - 1] == n - 1 {
            1int
        } else {
            0int
        })
    }
}

pub proof fn lemma_root_props(s: Seq<usize>, i: int)
    requires
        uf_wf(s),
        0 <= i < s.len(),
    ensures
        0 <= root_of(s, i) <= i,
        s[root_of(s, i)] == root_of(s, i),
        root_of(s, i) <= s[i],
    decreases i,
{
    if s[i] < i {
        lemma_root_props(s, s[i] as int);
    }
}

/// Point compression: rewriting one entry to point directly at its own
/// root changes no representative.
pub proof fn lemma_compress_point(s: Seq<usize>, node: int, j: int)
    requires
        uf_wf(s),
        0 <= node < s.len(),
        0 <= j < s.len(),
    ensures
        root_of(s.update(node, root_of(s, node) as usize), j) == root_of(s, j),
    decreases j,
{
    let r = root_of(s, node);
    lemma_root_props(s, node);
    let s2 = s.update(node, r as usize);
    if j == node {
        if r < j {
            assert(s2[r] == s[r]);
            assert(root_of(s2, r) == r);
            assert(root_of(s2, j) == root_of(s2, r));
        } else {
            assert(r == j);
            assert(s2[j] == j);
        }
    } else {
        assert(s2[j] == s[j]);
        if s[j] < j {
            lemma_compress_point(s, node, s[j] as int);
            assert(root_of(s2, j) == root_of(s2, s[j] as int));
            assert(root_of(s, j) == root_of(s, s[j] as int));
        }
    }
}

/// Path compression keeps the table well formed, keeps every
/// representative, and keeps exactly the same set of roots.
pub proof fn lemma_compress(s: Seq<usize>, node: int)
    requires
        uf_wf(s),
        0 <= node < s.len(),
    ensures
        uf_wf(s.update(node, root_of(s, node) as usize)),
        forall|j: int| 0 <= j < s.len() ==> #[trigger] root_of(s.update(node, root_of(s, node) as usize), j) == root_of(s, j),
        forall|j: int| 0 <= j < s.len() ==> ((#[trigger] s.update(node, root_of(s, node) as usize)[j]) == j <==> s[j] == j),
{
    let r = root_of(s, node);
    lemma_root_props(s, node);
    let s2 = s.update(node, r as usize);
    assert forall|j: int| 0 <= j < s.len() implies #[trigger] root_of(s2, j) == root_of(s, j) by {
        lemma_compress_point(s, node, j);
    }
    assert forall|j: int| 0 <= j < s.len() implies ((#[trigger] s2[j]) == j <==> s[j] == j) by {
        if j == node {
            if s[node] < node {
                lemma_root_props(s, s[node] as int);
            }
        }
    }
}

/// Attaching the larger of two distinct roots beneath the smaller
/// merges exactly their two classes and leaves every other class as it
/// was.
pub proof fn lemma_attach_point(s: Seq<usize>, ra: int, rb: int, j: int)
    requires
        uf_wf(s),
        0 <= ra < rb < s.len(),
        s[ra] == ra,
        s[rb] == rb,
        0 <= j < s.len(),
    ensures
        root_of(s.update(rb, ra as usize), j) == (if root_of(s, j) == rb {
            ra
        } else {
            root_of(s, j)
        }),
    decreases j,
{
    let s2 = s.update(rb, ra as usize);
    if j == rb {
        assert(s2[ra] == s[ra]);
        assert(root_of(s2, ra) == ra);
        assert(root_of(s2, j) == root_of(s2, ra));
        assert(root_of(s, j) == rb);
    } else {
        assert(s2[j] == s[j]);
        if s[j] < j {
            lemma_attach_point(s, ra, rb, s[j] as int);
            assert(root_of(s2, j) == root_of(s2, s[j] as int));
            assert(root_of(s, j) == root_of(s, s[j] as int));
        } else {
            assert(root_of(s, j) == j);
            assert(root_of(s2, j) == j);
        }
    }
}

pub proof fn lemma_attach(s: Seq<usize>, ra: int, rb: int)
    requires
        uf_wf(s),
        0 <= ra < rb < s.len(),
        s[ra] == ra,
        s[rb] == rb,
    ensures
        uf_wf(s.update(rb, ra as usize)),
        forall|j: int| 0 <= j < s.len() ==> #[trigger] root_of(s.update(rb, ra as usize), j) == (if root_of(s, j) == rb {
            ra
        } else {
            root_of(s, j)
        }),
        forall|j: int| 0 <= j < s.len() ==> ((#[trigger] s.update(rb, ra as usize)[j]) == j <==> (s[j] == j && j != rb)),
{
    let s2 = s.update(rb, ra as usize);
    assert forall|j: int| 0 <= j < s.len() implies #[trigger] root_of(s2, j) == (if root_of(s, j) == rb {
        ra
    } else {
        root_of(s, j)
    }) by {
        lemma_attach_point(s, ra, rb, j);
    }
}

pub proof fn lemma_root_count_congruence(s1: Seq<usize>, s2: Seq<usize>, n: int)
    requires
        forall|i: int| 0 <= i < n ==> ((#[trigger] s1[i]) == i <==> s2[i] == i),
    ensures
        root_count(s1, n) == root_count(s2, n),
    decreases n,
{
    if n > 0 {
        lemma_root_count_congruence(s1, s2, n - 1);
    }
}

pub proof fn lemma_root_count_update(s1: Seq<usize>, s2: Seq<usize>, n: int, k: int)
    requires
        0 <= k < n,
        forall|i: int| 0 <= i < n && i != k ==> ((#[trigger] s1[i]) == i <==> s2[i] == i),
    ensures
        root_count(s2, n) == root_count(s1, n) + (if s2[k] == k {
            1int
        } else {
            0int
        }) - (if s1[k] == k {
            1int
        } else {
            0int
        }),
    decreases n,
{
    if k == n - 1 {
        lemma_root_count_congruence(s1, s2, n - 1);
    } else {
        lemma_root_count_update(s1, s2, n - 1, k);
    }
}

pub proof fn lemma_root_count_all(s: Seq<usize>, n: int)
    requires
        n >= 0,
        forall|i: int| 0 <= i < n ==> (#[trigger] s[i]) == i,
    ensures
        root_count(s, n) == n,
    decreases n,
{
    if n > 0 {
        lemma_root_count_all(s, n - 1);
    }
}

proof fn lemma_root_count_indicator(s: Seq<usize>, n: int, k: int)
    requires
        0 <= k < n,
        forall|i: int| 0 <= i < n ==> ((#[trigger] s[i]) == i <==> i == k),
    ensures
        root_count(s, n) == 1,
    decreases n,
{
    if k == n - 1 {
        lemma_root_count_none_below(s, n - 1, k);
    } else {
        lemma_root_count_indicator(s, n - 1, k);
    }
}

proof fn lemma_root_count_none_below(s: Seq<usize>, n: int, k: int)
    requires
        forall|i: int| 0 <= i < n ==> ((#[trigger] s[i]) == i <==> i == k),
        !(0 <= k < n),
    ensures
        root_count(s, n) == 0,
    decreases n,
{
    if n > 0 {
        lemma_root_count_none_below(s, n - 1, k);
    }
}

/// When every entry has the same representative, there is exactly one
/// root in the table.
pub proof fn lemma_root_count_single(s: Seq<usize>, n: int)
    requires
        uf_wf(s),
        s.len() == n,
        n >= 1,
        forall|j: int| 0 <= j < n ==> #[trigger] root_of(s, j) == root_of(s, 0),
    ensures
        root_count(s, n) == 1,
{
    let r0 = root_of(s, 0);
    lemma_root_props(s, 0);
    assert forall|i: int| 0 <= i < n implies ((#[trigger] s[i]) == i <==> i == r0) by {
        if s[i] == i {
            assert(root_of(s, i) == i);
        }
        if i == r0 {
            assert(s[r0] == r0);
        }
    }
    lemma_root_count_indicator(s, n, r0);
}

} // verus!
