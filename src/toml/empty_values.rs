use vstd::prelude::*;

use crate::toml::{lemma_tree_entries, lemma_trees, tree, tree_entries, trees, Tree, Value};

verus! {

/// Everything but an empty array or an empty table is kept.
pub open spec fn retained(t: Tree) -> bool {
    match t {
        Tree::Array(items) => items.len() > 0,
        Tree::Table(entries) => entries.len() > 0,
        Tree::Scalar(_) => true,
    }
}

/// `t` with its empty arrays and tables removed, innermost first: a container
/// that only held such values goes as well.
pub open spec fn normalized(t: Tree) -> Tree
    decreases t, 0nat,
{
    match t {
        Tree::Scalar(s) => Tree::Scalar(s),
        Tree::Array(items) => Tree::Array(normalized_items(items, items.len())),
        Tree::Table(entries) => Tree::Table(normalized_entries(entries, entries.len())),
    }
}

/// The first `n` items, each normalized, those not retained left out.
pub open spec fn normalized_items(items: Seq<Tree>, n: nat) -> Seq<Tree>
    decreases items, n,
{
    if n == 0 || n > items.len() {
        Seq::empty()
    } else {
        let rest = normalized_items(items, (n - 1) as nat);
        let c = normalized(items[n - 1]);
        if retained(c) {
            rest.push(c)
        } else {
            rest
        }
    }
}

/// The first `n` entries, each value normalized, those not retained left out.
pub open spec fn normalized_entries(entries: Seq<(Seq<char>, Tree)>, n: nat) -> Seq<(Seq<char>, Tree)>
    decreases entries, n,
{
    if n == 0 || n > entries.len() {
        Seq::empty()
    } else {
        let rest = normalized_entries(entries, (n - 1) as nat);
        let c = normalized(entries[n - 1].1);
        if retained(c) {
            rest.push((entries[n - 1].0, c))
        } else {
            rest
        }
    }
}

proof fn lemma_trees_prefix(s: Seq<Value>, x: Value, k: nat)
    requires
        k <= s.len(),
    ensures
        trees(s.push(x), k) == trees(s, k),
    decreases k,
{
    if k > 0 {
        lemma_trees_prefix(s, x, (k - 1) as nat);
    }
}

proof fn lemma_trees_push(s: Seq<Value>, x: Value)
    ensures
        trees(s.push(x), (s.len() + 1) as nat) == trees(s, s.len()).push(tree(x)),
{
    lemma_trees_prefix(s, x, s.len());
    assert(s.push(x)[s.len() as int] == x);
}

proof fn lemma_entries_prefix(s: Seq<(String, Value)>, x: (String, Value), k: nat)
    requires
        k <= s.len(),
    ensures
        tree_entries(s.push(x), k) == tree_entries(s, k),
    decreases k,
{
    if k > 0 {
        lemma_entries_prefix(s, x, (k - 1) as nat);
    }
}

proof fn lemma_entries_push(s: Seq<(String, Value)>, x: (String, Value))
    ensures
        tree_entries(s.push(x), (s.len() + 1) as nat) == tree_entries(s, s.len()).push((x.0@, tree(x.1))),
{
    lemma_entries_prefix(s, x, s.len());
    assert(s.push(x)[s.len() as int] == x);
}

/// Whether a value survives normalization at its place.
pub fn should_retain(value: &Value) -> (r: bool)
    ensures
        r == retained(tree(*value)),
{
    match value {
        Value::Table(table) => {
            proof {
                lemma_tree_entries(table@, table@.len());
            }
            table.len() > 0
        },
        Value::Array(array) => {
            proof {
                lemma_trees(array@, array@.len());
            }
            array.len() > 0
        },
        Value::Scalar(_) => true,
    }
}

/// Removes empty arrays and tables from `value`, nested ones first, so that a
/// table or array that only held empty values goes too.
pub fn remove(value: &mut Value)
    ensures
        tree(*final(value)) == normalized(tree(*old(value))),
{
    let mut taken = Value::Scalar(String::new());
    std::mem::swap(&mut taken, value);
    *value = normalize_owned(taken);
}

fn normalize_owned(v: Value) -> (r: Value)
    ensures
        tree(r) == normalized(tree(v)),
    decreases v,
{
    let ghost gv = v;
    match v {
        Value::Scalar(s) => Value::Scalar(s),
        Value::Array(items) => {
            let ghost src = items@;
            let ghost model = trees(src, src.len());
            proof {
                lemma_trees(src, src.len());
            }
            let n = items.len();
            let mut rest = items;
            let mut out: Vec<Value> = Vec::new();
            let mut i: usize = 0;
            while i < n
                invariant
                    gv == Value::Array(items),
                    gv == v,
                    src == items@,
                    n == src.len(),
                    model == trees(src, src.len()),
                    model.len() == n,
                    forall|k: int| 0 <= k < n ==> #[trigger] model[k] == tree(src[k]),
                    i <= n,
                    rest@ == src.subrange(i as int, n as int),
                    trees(out@, out@.len()) == normalized_items(model, i as nat),
                decreases n - i,
            {
                assert(rest@[0] == src[i as int]);
                let c = rest.remove(0);
                proof {
                    assert(decreases_to!(gv => gv->Array_0));
                    assert(decreases_to!(gv->Array_0 => gv->Array_0@));
                    assert(decreases_to!(gv->Array_0@ => gv->Array_0@[i as int]));
                    assert(c == gv->Array_0@[i as int]);
                    assert(decreases_to!(gv => c));
                    assert(decreases_to!(v => c));
                }
                let c2 = normalize_owned(c);
                if should_retain(&c2) {
                    proof {
                        lemma_trees_push(out@, c2);
                    }
                    out.push(c2);
                }
                assert(rest@ =~= src.subrange(i + 1, n as int));
                i = i + 1;
            }
            assert(normalized_items(model, n as nat) == normalized_items(model, model.len()));
            Value::Array(out)
        },
        Value::Table(entries) => {
            let ghost src = entries@;
            let ghost model = tree_entries(src, src.len());
            proof {
                lemma_tree_entries(src, src.len());
            }
            let n = entries.len();
            let mut rest = entries;
            let mut out: Vec<(String, Value)> = Vec::new();
            let mut i: usize = 0;
            while i < n
                invariant
                    gv == Value::Table(entries),
                    gv == v,
                    src == entries@,
                    n == src.len(),
                    model == tree_entries(src, src.len()),
                    model.len() == n,
                    forall|k: int| 0 <= k < n ==> #[trigger] model[k] == (src[k].0@, tree(src[k].1)),
                    i <= n,
                    rest@ == src.subrange(i as int, n as int),
                    tree_entries(out@, out@.len()) == normalized_entries(model, i as nat),
                decreases n - i,
            {
                assert(rest@[0] == src[i as int]);
                let (key, c) = rest.remove(0);
                proof {
                    assert(decreases_to!(gv => gv->Table_0));
                    assert(decreases_to!(gv->Table_0 => gv->Table_0@));
                    assert(decreases_to!(gv->Table_0@ => gv->Table_0@[i as int]));
                    assert(decreases_to!(gv->Table_0@[i as int] => gv->Table_0@[i as int].1));
                    assert(c == gv->Table_0@[i as int].1);
                    assert(decreases_to!(gv => c));
                    assert(decreases_to!(v => c));
                }
                let c2 = normalize_owned(c);
                if should_retain(&c2) {
                    proof {
                        lemma_entries_push(out@, (key, c2));
                    }
                    out.push((key, c2));
                }
                assert(rest@ =~= src.subrange(i + 1, n as int));
                i = i + 1;
            }
            Value::Table(out)
        },
    }
}

} // verus!
