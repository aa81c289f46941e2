//! JSON documents, and what of one was understood.

use crate::names::lookup;
use crate::state::texts;
use crate::text::{chars_of, decimal, decimal_of, joined, owned, same_text};
use serde_json::Value as Parsed;
use vstd::prelude::*;

verus! {

/// A JSON value.
#[derive(Debug, PartialEq)]
pub enum Json {
    Null,
    Bool(bool),
    /// A number, where it is a whole one from 0 on that fits.
    Number(Option<u64>),
    Text(String),
    List(Vec<Json>),
    /// Members by name.
    Object(Vec<(String, Json)>),
}

/// A [`Json`], by value.
pub ghost enum Tree {
    Null,
    Bool(bool),
    Number(Option<u64>),
    Text(Seq<char>),
    List(Seq<Tree>),
    Object(Seq<(Seq<char>, Tree)>),
}

pub open spec fn tree_of(json: Json) -> Tree
    decreases json,
{
    match json {
        Json::Null => Tree::Null,
        Json::Bool(b) => Tree::Bool(b),
        Json::Number(n) => Tree::Number(n),
        Json::Text(text) => Tree::Text(text@),
        Json::List(items) => Tree::List(trees_of(items@)),
        Json::Object(members) => Tree::Object(members_of(members@)),
    }
}

pub open spec fn trees_of(items: Seq<Json>) -> Seq<Tree>
    decreases items,
{
    if items.len() == 0 {
        Seq::empty()
    } else {
        trees_of(items.drop_last()).push(tree_of(items.last()))
    }
}

pub open spec fn members_of(members: Seq<(String, Json)>) -> Seq<(Seq<char>, Tree)>
    decreases members,
{
    if members.len() == 0 {
        Seq::empty()
    } else {
        members_of(members.drop_last()).push((members.last().0@, tree_of(members.last().1)))
    }
}

impl View for Json {
    type V = Tree;

    open spec fn view(&self) -> Tree {
        tree_of(*self)
    }
}

/// A value of the JSON parser.
#[verifier::external_type_specification]
#[verifier::external_body]
pub struct ParsedJson(Parsed);

/// What a text is as JSON, or what the parser has to say about it.
pub uninterp spec fn json_of(text: Seq<char>) -> Result<Tree, Seq<char>>;

/// What a parsed value holds.
pub uninterp spec fn held_by(value: Parsed) -> Tree;

/// `serde_json::from_str`, to a `serde_json::Value`. What comes back, the value or the words of
/// the error, depends on the text alone.
#[verifier::external_body]
fn parse_json(text: &str) -> (r: Result<Parsed, String>)
    ensures
        match (r, json_of(text@)) {
            (Ok(value), Ok(tree)) => held_by(value) == tree,
            (Err(e), Err(words)) => e@ == words,
            _ => false,
        },
{
    serde_json::from_str(text).map_err(|e: serde_json::Error| e.to_string())
}

/// The value that a `serde_json::Value` holds, variant by variant; of a number only its
/// `as_u64`. An object's members come in the order that `serde_json::Map` walks them.
#[verifier::external_body]
fn opened(value: Parsed) -> (r: Json)
    ensures
        r@ == held_by(value),
{
    match value {
        Parsed::Null => Json::Null,
        Parsed::Bool(b) => Json::Bool(b),
        Parsed::Number(n) => Json::Number(n.as_u64()),
        Parsed::String(s) => Json::Text(s),
        Parsed::Array(items) => Json::List(items.into_iter().map(opened).collect()),
        Parsed::Object(members) => {
            Json::Object(members.into_iter().map(|(k, v)| (k, opened(v))).collect())
        },
    }
}

impl Json {
    /// A text read as JSON, or what the parser has to say about it.
    pub fn read(text: &str) -> (r: Result<Json, String>)
        ensures
            match (r, json_of(text@)) {
                (Ok(json), Ok(tree)) => json@ == tree,
                (Err(e), Err(words)) => e@ == words,
                _ => false,
            },
    {
        match parse_json(text) {
            Ok(value) => Ok(opened(value)),
            Err(e) => Err(e),
        }
    }

    /// The whole number an object holds under a name.
    pub fn whole_member(&self, name: &str) -> (r: Option<u64>)
        ensures
            r == self@.whole_member(name@),
    {
        if let Json::Object(members) = self {
            proof {
                lemma_members(members@);
            }
            if let Some(i) = find_member(members, name) {
                if let Json::Number(n) = &members[i].1 {
                    return *n;
                }
            }
        }
        None
    }
}

impl Tree {
    /// The whole number an object holds under a name.
    pub open spec fn whole_member(self, name: Seq<char>) -> Option<u64> {
        match self {
            Tree::Object(members) => match lookup(members, name) {
                Some(Tree::Number(n)) => n,
                _ => None,
            },
            _ => None,
        }
    }
}

proof fn lemma_members(members: Seq<(String, Json)>)
    ensures
        members_of(members).len() == members.len(),
        forall|i: int|
            0 <= i < members.len() ==> #[trigger] members_of(members)[i] == (
                members[i].0@,
                members[i].1@,
            ),
    decreases members.len(),
{
    if members.len() > 0 {
        lemma_members(members.drop_last());
    }
}

proof fn lemma_trees(items: Seq<Json>)
    ensures
        trees_of(items).len() == items.len(),
        forall|i: int| 0 <= i < items.len() ==> #[trigger] trees_of(items)[i] == items[i]@,
    decreases items.len(),
{
    if items.len() > 0 {
        lemma_trees(items.drop_last());
    }
}

fn find_member(members: &Vec<(String, Json)>, name: &str) -> (r: Option<usize>)
    ensures
        match r {
            Some(i) => i < members@.len() && lookup(members_of(members@), name@) == Some(
                members@[i as int].1@,
            ),
            None => lookup(members_of(members@), name@) is None,
        },
{
    let ghost all = members_of(members@);
    proof {
        lemma_members(members@);
        assert(all.skip(0) =~= all);
    }
    let mut i: usize = 0;
    while i < members.len()
        invariant
            i <= members.len(),
            all == members_of(members@),
            all.len() == members@.len(),
            forall|k: int|
                0 <= k < members@.len() ==> #[trigger] all[k] == (members@[k].0@, members@[k].1@),
            lookup(all, name@) == lookup(all.skip(i as int), name@),
        decreases members.len() - i,
    {
        assert(all.skip(i as int).drop_first() =~= all.skip(i as int + 1));
        assert(all.skip(i as int)[0] == all[i as int]);
        if same_text(members[i].0.as_str(), name) {
            return Some(i);
        }
        i = i + 1;
    }
    None
}

/// The path of a member.
pub open spec fn member_path(path: Seq<char>, key: Seq<char>) -> Seq<char> {
    if path.len() == 0 {
        key
    } else {
        path + "."@ + key
    }
}

/// The path of a list's item.
pub open spec fn item_path(path: Seq<char>, i: int) -> Seq<char> {
    path + "["@ + decimal(i as nat) + "]"@
}

/// The paths of the members present in one document but absent from another one, with the same
/// shape as far as it goes. A member whose name starts with a dollar sign is a remark, and one
/// that is null has no value to lose.
pub open spec fn ignored(given: Tree, understood: Tree, path: Seq<char>) -> Seq<Seq<char>>
    decreases given,
{
    match (given, understood) {
        (Tree::Object(given), Tree::Object(understood)) => ignored_members(
            given,
            understood,
            path,
        ),
        (Tree::List(given), Tree::List(understood)) => ignored_items(given, understood, path),
        _ => Seq::empty(),
    }
}

pub open spec fn ignored_members(
    given: Seq<(Seq<char>, Tree)>,
    understood: Seq<(Seq<char>, Tree)>,
    path: Seq<char>,
) -> Seq<Seq<char>>
    decreases given,
{
    if given.len() == 0 {
        Seq::empty()
    } else {
        let (key, value) = given.last();
        let here = member_path(path, key);
        ignored_members(given.drop_last(), understood, path) + (match lookup(understood, key) {
            Some(kept) => ignored(value, kept, here),
            None => if (key.len() > 0 && key[0] == '$') || value is Null {
                Seq::empty()
            } else {
                seq![here]
            },
        })
    }
}

pub open spec fn ignored_items(given: Seq<Tree>, understood: Seq<Tree>, path: Seq<char>) -> Seq<
    Seq<char>,
>
    decreases given,
{
    if given.len() == 0 {
        Seq::empty()
    } else {
        let i = given.len() - 1;
        ignored_items(given.drop_last(), understood, path) + (if i < understood.len() {
            ignored(given.last(), understood[i], item_path(path, i))
        } else {
            Seq::empty()
        })
    }
}

fn is_remark(key: &str) -> (r: bool)
    ensures
        r == (key@.len() > 0 && key@[0] == '$'),
{
    let chars = chars_of(key);
    chars.len() > 0 && chars[0] == '$'
}

fn member_name(path: &str, key: &str) -> (r: String)
    ensures
        r@ == member_path(path@, key@),
{
    if path.unicode_len() == 0 {
        owned(key)
    } else {
        let mut here = joined(path, ".");
        here.append(key);
        here
    }
}

fn item_name(path: &str, i: usize) -> (r: String)
    ensures
        r@ == item_path(path@, i as int),
{
    let mut here = joined(path, "[");
    here.append(decimal_of(i as u64).as_str());
    here.append("]");
    here
}

/// Collect the paths of object members present in `given` but absent from `understood` (the
/// same document after a round trip through the model), which are the fields that reading it
/// silently dropped.
pub fn ignored_fields(given: &Json, understood: &Json, path: &str, out: &mut Vec<String>)
    ensures
        texts(final(out)@) == texts(old(out)@) + ignored(given@, understood@, path@),
    decreases given,
{
    let ghost before = texts(out@);
    assert(before + Seq::<Seq<char>>::empty() =~= before);
    match (given, understood) {
        (Json::Object(members), Json::Object(kept)) => {
            let ghost all = members_of(members@);
            let ghost others = members_of(kept@);
            proof {
                lemma_members(members@);
            }
            let mut i: usize = 0;
            assert(all.take(0) =~= Seq::<(Seq<char>, Tree)>::empty());
            while i < members.len()
                invariant
                    i <= members.len(),
                    given is Object,
                    given->Object_0 == *members,
                    all.len() == members@.len(),
                    others == members_of(kept@),
                    forall|k: int|
                        0 <= k < members@.len() ==> #[trigger] all[k] == (
                            members@[k].0@,
                            members@[k].1@,
                        ),
                    texts(out@) == before + ignored_members(
                        all.take(i as int),
                        others,
                        path@,
                    ),
                decreases members.len() - i,
            {
                let key = members[i].0.as_str();
                let value = &members[i].1;
                let ghost was = texts(out@);
                proof {
                    assert(all.take(i as int + 1).drop_last() =~= all.take(i as int));
                    assert(all.take(i as int + 1).last() == (key@, value@));
                    assert(was + Seq::<Seq<char>>::empty() =~= was);
                    assert(decreases_to!(given => given->Object_0@));
                    assert(decreases_to!(members@ => members@[i as int]));
                }
                let here = member_name(path, key);
                match find_member(kept, key) {
                    Some(k) => {
                        ignored_fields(value, &kept[k].1, here.as_str(), out);
                    },
                    None => {
                        let null: bool = match value {
                            Json::Null => true,
                            _ => false,
                        };
                        if !is_remark(key) && !null {
                            out.push(here);
                            assert(texts(out@) =~= was + seq![here@]);
                        }
                    },
                }
                i = i + 1;
                assert(texts(out@) =~= before + ignored_members(
                    all.take(i as int),
                    others,
                    path@,
                ));
            }
            assert(all.take(i as int) =~= all);
        },
        (Json::List(items), Json::List(kept)) => {
            let ghost all = trees_of(items@);
            let ghost others = trees_of(kept@);
            proof {
                lemma_trees(items@);
                lemma_trees(kept@);
            }
            let mut i: usize = 0;
            assert(all.take(0) =~= Seq::<Tree>::empty());
            while i < items.len()
                invariant
                    i <= items.len(),
                    given is List,
                    given->List_0 == *items,
                    all.len() == items@.len(),
                    others.len() == kept@.len(),
                    forall|k: int| 0 <= k < items@.len() ==> #[trigger] all[k] == items@[k]@,
                    forall|k: int| 0 <= k < kept@.len() ==> #[trigger] others[k] == kept@[k]@,
                    texts(out@) == before + ignored_items(all.take(i as int), others, path@),
                decreases items.len() - i,
            {
                let value = &items[i];
                let ghost was = texts(out@);
                proof {
                    assert(all.take(i as int + 1).drop_last() =~= all.take(i as int));
                    assert(all.take(i as int + 1).last() == value@);
                    assert(was + Seq::<Seq<char>>::empty() =~= was);
                    assert(decreases_to!(given => given->List_0@));
                    assert(decreases_to!(items@ => items@[i as int]));
                }
                if i < kept.len() {
                    ignored_fields(value, &kept[i], item_name(path, i).as_str(), out);
                }
                i = i + 1;
                assert(texts(out@) =~= before + ignored_items(
                    all.take(i as int),
                    others,
                    path@,
                ));
            }
            assert(all.take(i as int) =~= all);
        },
        _ => {},
    }
}

/// No object in a document has two members of one name.
pub open spec fn well_named(tree: Tree) -> bool
    decreases tree,
{
    match tree {
        Tree::List(items) => all_named(items),
        Tree::Object(members) => members_named(members) && forall|i: int, j: int|
            0 <= i < j < members.len() ==> (#[trigger] members[i]).0 != (#[trigger] members[j]).0,
        _ => true,
    }
}

pub open spec fn all_named(items: Seq<Tree>) -> bool
    decreases items,
{
    items.len() > 0 ==> all_named(items.drop_last()) && well_named(items.last())
}

pub open spec fn members_named(members: Seq<(Seq<char>, Tree)>) -> bool
    decreases members,
{
    members.len() > 0 ==> members_named(members.drop_last()) && well_named(members.last().1)
}

proof fn lemma_lookup_own(members: Seq<(Seq<char>, Tree)>, i: int)
    requires
        0 <= i < members.len(),
        forall|a: int, b: int|
            0 <= a < b < members.len() ==> (#[trigger] members[a]).0 != (#[trigger] members[b]).0,
    ensures
        lookup(members, members[i].0) == Some(members[i].1),
    decreases members.len(),
{
    if i > 0 {
        let rest = members.drop_first();
        assert forall|a: int, b: int| 0 <= a < b < rest.len() implies (#[trigger] rest[a]).0 != (
        #[trigger] rest[b]).0 by {
            assert(members[a + 1].0 != members[b + 1].0);
        }
        lemma_lookup_own(rest, i - 1);
        assert(members[0].0 != members[i].0);
    }
}

proof fn lemma_members_understood(
    given: Seq<(Seq<char>, Tree)>,
    all: Seq<(Seq<char>, Tree)>,
    path: Seq<char>,
)
    requires
        members_named(given),
        given.len() <= all.len(),
        given == all.take(given.len() as int),
        forall|a: int, b: int|
            0 <= a < b < all.len() ==> (#[trigger] all[a]).0 != (#[trigger] all[b]).0,
    ensures
        ignored_members(given, all, path) == Seq::<Seq<char>>::empty(),
    decreases given,
{
    if given.len() > 0 {
        let (key, value) = given.last();
        let n = given.len() - 1;
        assert(all[n] == given.last());
        assert(given.drop_last() =~= all.take(n));
        lemma_members_understood(given.drop_last(), all, path);
        lemma_lookup_own(all, n);
        lemma_understood_whole(value, member_path(path, key));
        assert(ignored_members(given, all, path) =~= Seq::<Seq<char>>::empty());
    }
}

proof fn lemma_items_understood(given: Seq<Tree>, all: Seq<Tree>, path: Seq<char>)
    requires
        all_named(given),
        given.len() <= all.len(),
        given == all.take(given.len() as int),
    ensures
        ignored_items(given, all, path) == Seq::<Seq<char>>::empty(),
    decreases given,
{
    if given.len() > 0 {
        let n = given.len() - 1;
        assert(all[n] == given.last());
        assert(given.drop_last() =~= all.take(n));
        lemma_items_understood(given.drop_last(), all, path);
        lemma_understood_whole(given.last(), item_path(path, n));
        assert(ignored_items(given, all, path) =~= Seq::<Seq<char>>::empty());
    }
}

/// Of a document that is understood as a whole nothing is ignored.
pub proof fn lemma_understood_whole(tree: Tree, path: Seq<char>)
    requires
        well_named(tree),
    ensures
        ignored(tree, tree, path) == Seq::<Seq<char>>::empty(),
    decreases tree,
{
    match tree {
        Tree::Object(members) => {
            assert(members.take(members.len() as int) =~= members);
            lemma_members_understood(members, members, path);
        },
        Tree::List(items) => {
            assert(items.take(items.len() as int) =~= items);
            lemma_items_understood(items, items, path);
        },
        _ => {},
    }
}

} // verus!
