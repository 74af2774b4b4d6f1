//! A TOML document as plain values, and the checks that compare a file with
//! what was read from it.

pub mod empty_values;
pub mod invalid_keys;

use vstd::prelude::*;

use self::empty_values::{normalized, remove};
use self::invalid_keys::{check_value, invalid_keys};

verus! {

/// The bytes of a TOML file and the path they were read from.
pub struct TomlFile {
    path: String,
    buf: Vec<u8>,
}

impl TomlFile {
    pub closed spec fn path_view(&self) -> Seq<char> {
        self.path@
    }

    pub closed spec fn bytes(&self) -> Seq<u8> {
        self.buf@
    }

    /// Holds `buf`, read from `path`.
    pub fn new(path: String, buf: Vec<u8>) -> (r: TomlFile)
        ensures
            r.path_view() == path@,
            r.bytes() == buf@,
    {
        TomlFile { path, buf }
    }

    pub fn path(&self) -> (r: &str)
        ensures
            r@ == self.path_view(),
    {
        self.path.as_str()
    }

    pub fn buf(&self) -> (r: &[u8])
        ensures
            r@ == self.bytes(),
    {
        self.buf.as_slice()
    }
}


/// A TOML value. Strings, numbers, booleans and dates are held as their
/// TOML text; only the shape of arrays and tables matters here.
#[derive(Debug)]
pub enum Value {
    Scalar(String),
    Array(Vec<Value>),
    Table(Vec<(String, Value)>),
}

/// The model of a value.
pub enum Tree {
    Scalar(Seq<char>),
    Array(Seq<Tree>),
    Table(Seq<(Seq<char>, Tree)>),
}

pub open spec fn tree(v: Value) -> Tree
    decreases v, 0nat,
{
    match v {
        Value::Scalar(s) => Tree::Scalar(s@),
        Value::Array(items) => Tree::Array(trees(items@, items@.len())),
        Value::Table(entries) => Tree::Table(tree_entries(entries@, entries@.len())),
    }
}

pub open spec fn trees(items: Seq<Value>, n: nat) -> Seq<Tree>
    decreases items, n,
{
    if n == 0 || n > items.len() {
        Seq::empty()
    } else {
        trees(items, (n - 1) as nat).push(tree(items[n - 1]))
    }
}

pub open spec fn tree_entries(entries: Seq<(String, Value)>, n: nat) -> Seq<(Seq<char>, Tree)>
    decreases entries, n,
{
    if n == 0 || n > entries.len() {
        Seq::empty()
    } else {
        tree_entries(entries, (n - 1) as nat).push((entries[n - 1].0@, tree(entries[n - 1].1)))
    }
}

/// The views of a sequence of strings.
pub open spec fn strs(v: Seq<String>) -> Seq<Seq<char>> {
    v.map_values(|s: String| s@)
}

/// The model of each of the first `n` items, in order.
pub proof fn lemma_trees(items: Seq<Value>, n: nat)
    requires
        n <= items.len(),
    ensures
        trees(items, n).len() == n,
        forall|i: int| 0 <= i < n ==> #[trigger] trees(items, n)[i] == tree(items[i]),
    decreases n,
{
    if n > 0 {
        lemma_trees(items, (n - 1) as nat);
    }
}

/// The model of each of the first `n` entries, in order.
pub proof fn lemma_tree_entries(entries: Seq<(String, Value)>, n: nat)
    requires
        n <= entries.len(),
    ensures
        tree_entries(entries, n).len() == n,
        forall|i: int|
            0 <= i < n ==> #[trigger] tree_entries(entries, n)[i] == (entries[i].0@, tree(entries[i].1)),
    decreases n,
{
    if n > 0 {
        lemma_tree_entries(entries, (n - 1) as nat);
    }
}

/// Whether two values are the same document.
pub fn same(a: &Value, b: &Value) -> (r: bool)
    ensures
        r == (tree(*a) == tree(*b)),
    decreases a,
{
    match a {
        Value::Scalar(x) => match b {
            Value::Scalar(y) => *x == *y,
            _ => false,
        },
        Value::Array(xs) => match b {
            Value::Array(ys) => {
                proof {
                    lemma_trees(xs@, xs@.len());
                    lemma_trees(ys@, ys@.len());
                }
                if xs.len() != ys.len() {
                    return false;
                }
                let mut i: usize = 0;
                while i < xs.len()
                    invariant
                        *a == Value::Array(*xs),
                        *b == Value::Array(*ys),
                        xs@.len() == ys@.len(),
                        trees(xs@, xs@.len()).len() == xs@.len(),
                        trees(ys@, ys@.len()).len() == ys@.len(),
                        forall|k: int| 0 <= k < xs@.len() ==> #[trigger] trees(xs@, xs@.len())[k] == tree(xs@[k]),
                        forall|k: int| 0 <= k < ys@.len() ==> #[trigger] trees(ys@, ys@.len())[k] == tree(ys@[k]),
                        i <= xs@.len(),
                        forall|k: int| 0 <= k < i ==> tree(xs@[k]) == tree(ys@[k]),
                    decreases xs@.len() - i,
                {
                    proof {
                        assert(decreases_to!(*a => (*a)->Array_0));
                        assert(decreases_to!((*a)->Array_0 => (*a)->Array_0@));
                        assert(decreases_to!((*a)->Array_0@ => (*a)->Array_0@[i as int]));
                    }
                    if !same(&xs[i], &ys[i]) {
                        assert(trees(xs@, xs@.len())[i as int] != trees(ys@, ys@.len())[i as int]);
                        return false;
                    }
                    i = i + 1;
                }
                assert(trees(xs@, xs@.len()) =~= trees(ys@, ys@.len()));
                true
            },
            _ => false,
        },
        Value::Table(xs) => match b {
            Value::Table(ys) => {
                proof {
                    lemma_tree_entries(xs@, xs@.len());
                    lemma_tree_entries(ys@, ys@.len());
                }
                if xs.len() != ys.len() {
                    return false;
                }
                let mut i: usize = 0;
                while i < xs.len()
                    invariant
                        *a == Value::Table(*xs),
                        *b == Value::Table(*ys),
                        xs@.len() == ys@.len(),
                        tree_entries(xs@, xs@.len()).len() == xs@.len(),
                        tree_entries(ys@, ys@.len()).len() == ys@.len(),
                        forall|k: int|
                            0 <= k < xs@.len() ==> #[trigger] tree_entries(xs@, xs@.len())[k] == (xs@[k].0@, tree(xs@[k].1)),
                        forall|k: int|
                            0 <= k < ys@.len() ==> #[trigger] tree_entries(ys@, ys@.len())[k] == (ys@[k].0@, tree(ys@[k].1)),
                        i <= xs@.len(),
                        forall|k: int| 0 <= k < i ==> xs@[k].0@ == ys@[k].0@ && tree(xs@[k].1) == tree(ys@[k].1),
                    decreases xs@.len() - i,
                {
                    proof {
                        assert(decreases_to!(*a => (*a)->Table_0));
                        assert(decreases_to!((*a)->Table_0 => (*a)->Table_0@));
                        assert(decreases_to!((*a)->Table_0@ => (*a)->Table_0@[i as int]));
                        assert(decreases_to!((*a)->Table_0@[i as int] => (*a)->Table_0@[i as int].1));
                    }
                    if xs[i].0 != ys[i].0 || !same(&xs[i].1, &ys[i].1) {
                        assert(tree_entries(xs@, xs@.len())[i as int] != tree_entries(ys@, ys@.len())[i as int]);
                        return false;
                    }
                    i = i + 1;
                }
                assert(tree_entries(xs@, xs@.len()) =~= tree_entries(ys@, ys@.len()));
                true
            },
            _ => false,
        },
    }
}

/// "Invalid keys:" followed by the keys, separated by commas.
pub open spec fn invalid_keys_message(keys: Seq<Seq<char>>) -> Seq<char>
    decreases keys.len(),
{
    if keys.len() == 0 {
        "Invalid keys:"@
    } else if keys.len() == 1 {
        "Invalid keys:"@ + " "@ + keys[0]
    } else {
        invalid_keys_message(keys.drop_last()) + ","@ + " "@ + keys.last()
    }
}

/// The message that lists the keys a file holds but its type does not.
pub fn invalid_keys_error(keys: &Vec<String>) -> (r: String)
    ensures
        r@ == invalid_keys_message(strs(keys@)),
{
    let mut error = String::from_str("Invalid keys:");
    let mut first_error = true;
    let mut i: usize = 0;
    while i < keys.len()
        invariant
            i <= keys@.len(),
            first_error == (i == 0),
            error@ == invalid_keys_message(strs(keys@).subrange(0, i as int)),
        decreases keys@.len() - i,
    {
        assert(strs(keys@).subrange(0, i + 1).drop_last() =~= strs(keys@).subrange(0, i as int));
        if !first_error {
            error.append(",");
        }
        first_error = false;
        error.append(" ");
        error.append(keys[i].as_str());
        i = i + 1;
    }
    assert(strs(keys@).subrange(0, i as int) =~= strs(keys@));
    error
}

/// Cleaning and comparing TOML values.
pub trait TomlValueExt: Sized {
    spec fn model(&self) -> Tree;

    /// Remove empty arrays and tables
    fn normalize(&mut self)
        ensures
            final(self).model() == normalized(old(self).model()),
    ;

    /// The dotted paths of the keys of `self` that `other` lacks.
    fn find_invalid(&self, other: &Self) -> (r: Vec<String>)
        ensures
            strs(r@) == invalid_keys(self.model(), other.model(), Seq::empty()),
    ;
}

impl TomlValueExt for Value {
    open spec fn model(&self) -> Tree {
        tree(*self)
    }

    fn normalize(&mut self) {
        remove(self);
    }

    fn find_invalid(&self, other: &Self) -> (r: Vec<String>) {
        let mut invalid: Vec<String> = Vec::new();
        check_value(self, other, &mut invalid, String::new());
        assert(strs(invalid@) =~= Seq::<Seq<char>>::empty() + invalid_keys(tree(*self), tree(*other), Seq::empty()));
        invalid
    }
}

} // verus!
