use vstd::prelude::*;

use crate::toml::{
    lemma_tree_entries, lemma_trees, strs, tree, tree_entries, trees, Tree, Value,
};

verus! {

/// `prefix.key`
pub open spec fn dotted(prefix: Seq<char>, key: Seq<char>) -> Seq<char> {
    prefix + "."@ + key
}

/// Where `key` first stands among the first `n` entries, or -1.
pub open spec fn find_key(t: Seq<(Seq<char>, Tree)>, key: Seq<char>, n: nat) -> int
    decreases n,
{
    if n == 0 || n > t.len() {
        -1
    } else {
        let r = find_key(t, key, (n - 1) as nat);
        if r >= 0 {
            r
        } else if t[n - 1].0 == key {
            n - 1
        } else {
            -1
        }
    }
}

/// The dotted paths of the keys of `from` that `to` lacks, walking tables
/// by key and arrays item by item as far as both reach.
pub open spec fn invalid_keys(from: Tree, to: Tree, prefix: Seq<char>) -> Seq<Seq<char>>
    decreases from, 0nat,
{
    match from {
        Tree::Table(f) => match to {
            Tree::Table(t) => invalid_in_table(f, t, prefix, f.len()),
            _ => Seq::empty(),
        },
        Tree::Array(f) => match to {
            Tree::Array(t) => invalid_in_array(f, t, prefix, if f.len() <= t.len() { f.len() } else { t.len() }),
            _ => Seq::empty(),
        },
        Tree::Scalar(_) => Seq::empty(),
    }
}

/// `invalid_keys` over the first `n` entries of a table.
pub open spec fn invalid_in_table(
    f: Seq<(Seq<char>, Tree)>,
    t: Seq<(Seq<char>, Tree)>,
    prefix: Seq<char>,
    n: nat,
) -> Seq<Seq<char>>
    decreases f, n,
{
    if n == 0 || n > f.len() {
        Seq::empty()
    } else {
        let rest = invalid_in_table(f, t, prefix, (n - 1) as nat);
        let key = f[n - 1].0;
        let j = find_key(t, key, t.len());
        if j >= 0 {
            rest + invalid_keys(f[n - 1].1, t[j].1, dotted(prefix, key))
        } else {
            rest.push(dotted(prefix, key))
        }
    }
}

/// `invalid_keys` over the first `n` pairs of items of two arrays.
pub open spec fn invalid_in_array(f: Seq<Tree>, t: Seq<Tree>, prefix: Seq<char>, n: nat) -> Seq<Seq<char>>
    decreases f, n,
{
    if n == 0 || n > f.len() || n > t.len() {
        Seq::empty()
    } else {
        invalid_in_array(f, t, prefix, (n - 1) as nat) + invalid_keys(f[n - 1], t[n - 1], prefix)
    }
}

/// Appends to `invalid` the dotted paths of the keys of `from` that `to`
/// lacks.
pub fn check_value(from: &Value, to: &Value, invalid: &mut Vec<String>, prefix: String)
    ensures
        strs(final(invalid)@) == strs(old(invalid)@) + invalid_keys(tree(*from), tree(*to), prefix@),
    decreases from, 1nat,
{
    match from {
        Value::Table(f) => match to {
            Value::Table(t) => {
                proof {
                    lemma_tree_entries(f@, f@.len());
                }
                check_table(f, t, invalid, prefix);
            },
            _ => {
                assert(strs(invalid@) =~= strs(invalid@) + Seq::<Seq<char>>::empty());
            },
        },
        Value::Array(f) => match to {
            Value::Array(t) => {
                proof {
                    lemma_trees(f@, f@.len());
                    lemma_trees(t@, t@.len());
                }
                check_array(f, t, invalid, prefix);
            },
            _ => {
                assert(strs(invalid@) =~= strs(invalid@) + Seq::<Seq<char>>::empty());
            },
        },
        Value::Scalar(_) => {
            assert(strs(invalid@) =~= strs(invalid@) + Seq::<Seq<char>>::empty());
        },
    }
}

/// `check_value` for each entry of a table, by key.
pub fn check_table(
    from: &Vec<(String, Value)>,
    to: &Vec<(String, Value)>,
    invalid: &mut Vec<String>,
    prefix: String,
)
    ensures
        strs(final(invalid)@) == strs(old(invalid)@) + invalid_in_table(
            tree_entries(from@, from@.len()),
            tree_entries(to@, to@.len()),
            prefix@,
            from@.len(),
        ),
    decreases from, 0nat,
{
    let ghost ff = tree_entries(from@, from@.len());
    let ghost tt = tree_entries(to@, to@.len());
    proof {
        lemma_tree_entries(from@, from@.len());
        lemma_tree_entries(to@, to@.len());
    }
    let ghost start = strs(invalid@);
    let n = from.len();
    let m = to.len();
    let mut i: usize = 0;
    assert(start =~= start + Seq::<Seq<char>>::empty());
    while i < n
        invariant
            n == from@.len(),
            m == to@.len(),
            ff == tree_entries(from@, from@.len()),
            tt == tree_entries(to@, to@.len()),
            ff.len() == n,
            tt.len() == m,
            forall|k: int| 0 <= k < n ==> #[trigger] ff[k] == (from@[k].0@, tree(from@[k].1)),
            forall|k: int| 0 <= k < m ==> #[trigger] tt[k] == (to@[k].0@, tree(to@[k].1)),
            i <= n,
            strs(invalid@) == start + invalid_in_table(ff, tt, prefix@, i as nat),
        decreases n - i,
    {
        let key = &from[i].0;
        let mut path = prefix.clone();
        path.append(".");
        path.append(key.as_str());
        let mut j: usize = 0;
        let mut found: Option<usize> = None;
        while j < m
            invariant
                m == to@.len(),
                tt.len() == m,
                forall|k: int| 0 <= k < m ==> #[trigger] tt[k] == (to@[k].0@, tree(to@[k].1)),
                j <= m,
                found is None ==> find_key(tt, key@, j as nat) == -1,
                found matches Some(q) ==> q < m && find_key(tt, key@, m as nat) == q,
            decreases m - j,
        {
            if found.is_none() {
                if to[j].0 == *key {
                    found = Some(j);
                    proof {
                        lemma_find_key_stays(tt, key@, (j + 1) as nat, m as nat);
                    }
                }
            }
            j = j + 1;
        }
        assert(ff[i as int].0 == key@);
        match found {
            Some(q) => {
                assert(decreases_to!(from => from@[i as int]));
                check_value(&from[i].1, &to[q].1, invalid, path);
            },
            None => {
                assert(find_key(tt, key@, tt.len()) == -1);
                assert(path@ == dotted(prefix@, key@));
                assert(invalid_in_table(ff, tt, prefix@, (i + 1) as nat) == invalid_in_table(ff, tt, prefix@, i as nat).push(dotted(prefix@, key@)));
                let ghost before_push = invalid@;
                let ghost added = path@;
                invalid.push(path);
                assert(strs(invalid@) =~= strs(before_push).push(added));
                assert(strs(invalid@) =~= start + invalid_in_table(ff, tt, prefix@, (i + 1) as nat));
            },
        }
        i = i + 1;
    }
}

proof fn lemma_find_key_stays(t: Seq<(Seq<char>, Tree)>, key: Seq<char>, a: nat, b: nat)
    requires
        a <= b <= t.len(),
        find_key(t, key, a) >= 0,
    ensures
        find_key(t, key, b) == find_key(t, key, a),
    decreases b - a,
{
    if a < b {
        lemma_find_key_stays(t, key, a, (b - 1) as nat);
    }
}

/// `check_value` for each pair of items, as far as both arrays reach.
pub fn check_array(from: &Vec<Value>, to: &Vec<Value>, invalid: &mut Vec<String>, prefix: String)
    ensures
        strs(final(invalid)@) == strs(old(invalid)@) + invalid_in_array(
            trees(from@, from@.len()),
            trees(to@, to@.len()),
            prefix@,
            if from@.len() <= to@.len() { from@.len() } else { to@.len() },
        ),
    decreases from, 0nat,
{
    let ghost ff = trees(from@, from@.len());
    let ghost tt = trees(to@, to@.len());
    proof {
        lemma_trees(from@, from@.len());
        lemma_trees(to@, to@.len());
    }
    let ghost start = strs(invalid@);
    let n = if from.len() <= to.len() { from.len() } else { to.len() };
    let mut i: usize = 0;
    assert(start =~= start + Seq::<Seq<char>>::empty());
    while i < n
        invariant
            n <= from@.len(),
            n <= to@.len(),
            ff == trees(from@, from@.len()),
            tt == trees(to@, to@.len()),
            ff.len() == from@.len(),
            tt.len() == to@.len(),
            forall|k: int| 0 <= k < from@.len() ==> #[trigger] ff[k] == tree(from@[k]),
            forall|k: int| 0 <= k < to@.len() ==> #[trigger] tt[k] == tree(to@[k]),
            i <= n,
            strs(invalid@) == start + invalid_in_array(ff, tt, prefix@, i as nat),
        decreases n - i,
    {
        assert(decreases_to!(from => from@[i as int]));
        check_value(&from[i], &to[i], invalid, prefix.clone());
        i = i + 1;
    }
}

} // verus!
