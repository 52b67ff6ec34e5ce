//! What holds of reading values out of a JSON document.

use crate::double::Double;
use crate::json;
use crate::json::JsonTree;
use crate::tally;
use crate::text;
use vstd::prelude::*;

verus! {

/// The member at `i` is the first that goes by `name`.
pub open spec fn first_named(
    fields: Seq<(Seq<char>, JsonTree)>,
    name: Seq<char>,
    i: int,
) -> bool {
    &&& 0 <= i < fields.len()
    &&& fields[i].0 == name
    &&& forall|k: int| 0 <= k < i ==> (#[trigger] fields[k]).0 != name
}

/// An object gives the value of the member that is asked for, and nothing where no
/// member goes by that name.
pub proof fn law_members_are_found_by_name(fields: Seq<(Seq<char>, JsonTree)>, name: Seq<char>)
    ensures
        forall|i: int| #[trigger]
            first_named(fields, name, i) ==> json::member(fields, name) == Some(fields[i].1),
        json::member(fields, name) is None <==> forall|k: int|
            0 <= k < fields.len() ==> (#[trigger] fields[k]).0 != name,
    decreases fields.len(),
{
    if fields.len() > 0 && fields[0].0 != name {
        let rest = fields.drop_first();
        law_members_are_found_by_name(rest, name);
        assert forall|i: int| #[trigger] first_named(fields, name, i) implies json::member(
            fields,
            name,
        ) == Some(fields[i].1) by {
            assert forall|k: int| 0 <= k < i - 1 implies (#[trigger] rest[k]).0 != name by {
                assert(rest[k] == fields[k + 1]);
            }
            assert(rest[i - 1] == fields[i]);
            assert(first_named(rest, name, i - 1));
        }
        if json::member(fields, name) is None {
            assert forall|k: int| 0 <= k < fields.len() implies (#[trigger] fields[k]).0
                != name by {
                if k > 0 {
                    assert(rest[k - 1] == fields[k]);
                }
            }
        } else {
            let k = choose|k: int| 0 <= k < rest.len() && (#[trigger] rest[k]).0 == name;
            assert(fields[k + 1] == rest[k]);
        }
    } else if fields.len() > 0 {
        assert forall|i: int| #[trigger] first_named(fields, name, i) implies json::member(
            fields,
            name,
        ) == Some(fields[i].1) by {
            if i > 0 {
                assert(fields[0].0 != name);
            }
        }
    }
}

/// A pointer leads from name to name: the empty one to the document itself, and one
/// that is longer by a name to what the shorter one leads to has under that name.
/// In a list, a number is a name. Nothing else has anything under a name.
pub proof fn law_pointers_lead_from_name_to_name(
    tree: JsonTree,
    path: Seq<char>,
    name: Seq<char>,
)
    requires
        path.len() > 0 ==> path[0] == '/',
        forall|k: int| 0 <= k < name.len() ==> #[trigger] name[k] != '/' && name[k] != '~',
    ensures
        json::tree_at(tree, Seq::empty()) == Some(tree),
        ({
            let found = json::tree_at(tree, path + seq!['/'] + name);
            match json::tree_at(tree, path) {
                Some(JsonTree::Object(fields)) => found == json::member(fields, name),
                Some(JsonTree::Array(items)) => {
                    &&& forall|i: nat|
                        i < items.len() && name == #[trigger] text::decimal(i) ==> found == Some(
                            items[i as int],
                        )
                    &&& (exists|k: int|
                        0 <= k < name.len() && !('0' <= #[trigger] name[k] <= '9'))
                        ==> found is None
                },
                _ => found is None,
            }
        }),
{
    let longer = path + seq!['/'] + name;
    let slash = path + seq!['/'];
    let cut = text::only('/');
    assert(slash.drop_last() =~= path);
    assert(text::pieces(slash, cut) == text::pieces(path, cut).push(Seq::empty()));
    text::lemma_pieces_grow(slash, name, cut);
    let before = text::split_on(path, '/');
    let after = text::split_on(longer, '/');
    assert(Seq::<char>::empty() + name =~= name);
    assert(after =~= before.push(name));
    text::lemma_pieces_grow(path, Seq::empty(), cut);
    assert(before.len() > 0);
    let to = |t: Seq<char>| json::unescaped(t);
    assert(longer[0] == '/');
    let tokens = after.drop_first().map_values(to);
    lemma_plain_names_stay(name);
    assert(tokens.last() == name);
    if path.len() == 0 {
        assert(before =~= seq![Seq::<char>::empty()]);
        assert(tokens =~= seq![name]);
        assert(tokens.drop_last() =~= Seq::<Seq<char>>::empty());
        assert(json::walk(tree, tokens.drop_last()) == Some(tree));
    } else {
        lemma_slash_cuts(path);
        assert(tokens.drop_last() =~= before.drop_first().map_values(to));
    }
    assert(json::tree_at(tree, longer) == json::walk(tree, tokens));
    match json::tree_at(tree, path) {
        Some(JsonTree::Array(items)) => {
            assert forall|i: nat|
                i < items.len() && name == #[trigger] text::decimal(i) implies json::tree_at(
                tree,
                longer,
            ) == Some(items[i as int]) by {
                text::lemma_decimal_is_digits(i);
                text::lemma_decimal_has_no_leading_zero(i);
            }
            if exists|k: int| 0 <= k < name.len() && !('0' <= #[trigger] name[k] <= '9') {
                let k = choose|k: int| 0 <= k < name.len() && !('0' <= #[trigger] name[k] <= '9');
                assert(!text::is_digit(name[k]));
            }
        },
        _ => {},
    }
}

/// A text with a slash in it splits into at least two pieces.
proof fn lemma_slash_cuts(path: Seq<char>)
    requires
        path.len() > 0,
        path[0] == '/',
    ensures
        text::split_on(path, '/').len() > 1,
    decreases path.len(),
{
    let rest = path.drop_last();
    text::lemma_pieces_grow(rest, Seq::empty(), text::only('/'));
    if path.len() > 1 {
        lemma_slash_cuts(rest);
    }
}

proof fn lemma_plain_names_stay(name: Seq<char>)
    requires
        forall|k: int| 0 <= k < name.len() ==> #[trigger] name[k] != '~',
    ensures
        json::unescaped(name) == name,
{
    lemma_nothing_replaced(name, '~', '1', '/');
    lemma_nothing_replaced(name, '~', '0', '~');
}

proof fn lemma_nothing_replaced(s: Seq<char>, first: char, second: char, by: char)
    requires
        forall|k: int| 0 <= k < s.len() ==> #[trigger] s[k] != first,
    ensures
        json::replaced(s, first, second, by) == s,
    decreases s.len(),
{
    if s.len() > 0 {
        let rest = s.drop_first();
        assert forall|k: int| 0 <= k < rest.len() implies #[trigger] rest[k] != first by {
            assert(rest[k] == s[k + 1]);
        }
        lemma_nothing_replaced(rest, first, second, by);
        assert(seq![s[0]] + rest =~= s);
    }
}

/// What a pointer is read as: a text is read from a text, a count from a number
/// that is an unsigned 64-bit integer, an id from one that is a signed one, and a
/// measure from any number. Where anything else stands there, or nothing, the text
/// is empty and the number zero.
pub proof fn law_values_are_read_as_what_they_are(tree: JsonTree, path: Seq<char>)
    ensures
        match json::tree_at(tree, path) {
            Some(JsonTree::Str(s)) => {
                &&& json::text_at(tree, path) == s
                &&& json::u64_at(tree, path) == 0
                &&& json::i64_at(tree, path) == 0
                &&& json::double_at(tree, path) == (Double { bits: 0 })
            },
            Some(JsonTree::Number(n)) => {
                &&& json::text_at(tree, path) == Seq::<char>::empty()
                &&& n.unsigned is Some ==> json::u64_at(tree, path) == n.unsigned->0
                &&& n.unsigned is None ==> json::u64_at(tree, path) == 0
                &&& n.signed is Some ==> json::i64_at(tree, path) == n.signed->0
                &&& n.signed is None ==> json::i64_at(tree, path) == 0
                &&& n.double is Some ==> json::double_at(tree, path) == n.double->0
                &&& n.double is None ==> json::double_at(tree, path) == (Double { bits: 0 })
            },
            _ => {
                &&& json::text_at(tree, path) == Seq::<char>::empty()
                &&& json::u64_at(tree, path) == 0
                &&& json::i64_at(tree, path) == 0
                &&& json::double_at(tree, path) == (Double { bits: 0 })
            },
        },
{
}

/// A list gives its entries and an object its members, and nothing else gives any.
pub proof fn law_entries_are_those_of_the_list(tree: JsonTree, path: Seq<char>)
    ensures
        match json::tree_at(tree, path) {
            Some(JsonTree::Array(items)) => {
                &&& json::entries_at(tree, path) == items
                &&& json::opt_entries_at(Some(tree), path) == items
                &&& json::fields_at(tree, path).len() == 0
            },
            Some(JsonTree::Object(fields)) => {
                &&& json::entries_at(tree, path).len() == 0
                &&& json::opt_entries_at(Some(tree), path).len() == 0
                &&& json::fields_at(tree, path) == fields
            },
            _ => {
                &&& json::entries_at(tree, path).len() == 0
                &&& json::opt_entries_at(Some(tree), path).len() == 0
                &&& json::fields_at(tree, path).len() == 0
            },
        },
        json::opt_entries_at(None, path).len() == 0,
{
}

/// The entry is a number that is a signed 64-bit integer.
pub open spec fn is_id(tree: JsonTree) -> bool {
    tree is Number && tree->Number_0.signed is Some
}

/// Of a list of ids the integers are kept, and of a list of names the texts, in
/// their order; what is neither is skipped.
pub proof fn law_lists_keep_what_fits(items: Seq<JsonTree>)
    ensures
        json::ints_among(items) == items.filter(|t: JsonTree| is_id(t)).map_values(
            |t: JsonTree| t->Number_0.signed->0,
        ),
        json::texts_among(items) == items.filter(|t: JsonTree| t is Str).map_values(
            |t: JsonTree| t->Str_0,
        ),
{
    let int_of = |t: JsonTree| json::i64_in(t);
    let text_of = |t: JsonTree| json::text_in(t);
    tally::law_picked_keeps_what_is_there(items, int_of);
    tally::law_picked_keeps_what_is_there(items, text_of);
    let ids = |t: JsonTree| is_id(t);
    let strs = |t: JsonTree| t is Str;
    assert((|t: JsonTree| int_of(t) is Some) =~= ids);
    assert((|t: JsonTree| text_of(t) is Some) =~= strs);
    let (kept, named) = (items.filter(ids), items.filter(strs));
    assert(kept.map_values(|t: JsonTree| int_of(t)->0) =~= kept.map_values(
        |t: JsonTree| t->Number_0.signed->0,
    )) by {
        assert forall|i: int| 0 <= i < kept.len() implies int_of(#[trigger] kept[i])->0
            == kept[i]->Number_0.signed->0 by {
            items.lemma_filter_pred(ids, i);
        }
    }
    assert(named.map_values(|t: JsonTree| text_of(t)->0) =~= named.map_values(
        |t: JsonTree| t->Str_0,
    )) by {
        assert forall|i: int| 0 <= i < named.len() implies text_of(#[trigger] named[i])->0
            == named[i]->Str_0 by {
            items.lemma_filter_pred(strs, i);
        }
    }
}

/// How a name is written in a pointer: its tildes and slashes are escaped.
pub open spec fn escaped(name: Seq<char>) -> Seq<char>
    decreases name.len(),
{
    if name.len() == 0 {
        Seq::empty()
    } else if name[0] == '~' {
        seq!['~', '0'] + escaped(name.drop_first())
    } else if name[0] == '/' {
        seq!['~', '1'] + escaped(name.drop_first())
    } else {
        seq![name[0]] + escaped(name.drop_first())
    }
}

/// A name with only its tildes escaped.
spec fn half_escaped(name: Seq<char>) -> Seq<char>
    decreases name.len(),
{
    if name.len() == 0 {
        Seq::empty()
    } else if name[0] == '~' {
        seq!['~', '0'] + half_escaped(name.drop_first())
    } else {
        seq![name[0]] + half_escaped(name.drop_first())
    }
}

/// A name that is escaped in a pointer reads back as itself.
pub proof fn law_escaped_names_read_back(name: Seq<char>)
    ensures
        json::unescaped(escaped(name)) == name,
{
    lemma_slashes_read_back(name);
    lemma_tildes_read_back(name);
}

proof fn lemma_slashes_read_back(name: Seq<char>)
    ensures
        json::replaced(escaped(name), '~', '1', '/') == half_escaped(name),
    decreases name.len(),
{
    let all = escaped(name);
    if name.len() > 0 {
        let rest = name.drop_first();
        lemma_slashes_read_back(rest);
        if name[0] == '~' {
            // The tilde stays, and so does the zero behind it.
            let tail = all.drop_first();
            assert(tail =~= seq!['0'] + escaped(rest));
            assert(tail.drop_first() =~= escaped(rest));
            assert(json::replaced(tail, '~', '1', '/') == seq!['0'] + half_escaped(rest));
            assert(half_escaped(name) =~= seq!['~'] + (seq!['0'] + half_escaped(rest)));
        } else if name[0] == '/' {
            assert(all.skip(2) =~= escaped(rest));
        } else {
            assert(all.drop_first() =~= escaped(rest));
        }
    }
}

proof fn lemma_tildes_read_back(name: Seq<char>)
    ensures
        json::replaced(half_escaped(name), '~', '0', '~') == name,
    decreases name.len(),
{
    let all = half_escaped(name);
    if name.len() > 0 {
        let rest = name.drop_first();
        lemma_tildes_read_back(rest);
        if name[0] == '~' {
            assert(all.skip(2) =~= half_escaped(rest));
        } else {
            assert(all.drop_first() =~= half_escaped(rest));
        }
        assert(name =~= seq![name[0]] + rest);
    }
}

} // verus!
