use vstd::prelude::*;

use crate::escape::{escape_string, escaped};
use crate::value::{
    entries_nesting, fits_within, items_nesting, lemma_entries_nesting_at_least,
    lemma_items_nesting_at_least, nesting, ParseError, Value,
};

verus! {

/// `depth` tab characters.
pub open spec fn indent(depth: nat) -> Seq<char> {
    Seq::new(depth, |_i: int| '\t')
}

/// The Lua literal of a boolean.
pub open spec fn bool_text(b: bool) -> Seq<char> {
    if b {
        "true"@
    } else {
        "false"@
    }
}

/// Two pieces of text one after the other, where both could be rendered.
pub open spec fn join(a: Option<Seq<char>>, b: Option<Seq<char>>) -> Option<Seq<char>> {
    match (a, b) {
        (Some(x), Some(y)) => Some(x + y),
        _ => None,
    }
}

/// The prefix `[key] = ` of a table entry, or `None` for a key that cannot
/// stand as a Lua table key (null, a sequence, a mapping, a tagged node).
pub open spec fn key_text(key: Value) -> Option<Seq<char>> {
    match key {
        Value::Str(s) => Some("[\""@ + escaped(s@) + "\"] = "@),
        Value::Number(n) => Some("["@ + n@ + "] = "@),
        Value::Bool(b) => Some("["@ + bool_text(b) + "] = "@),
        _ => None,
    }
}

/// What stands before the value of an entry, after its indentation: nothing
/// for an element of a sequence, the key prefix for an entry of a mapping.
pub open spec fn key_prefix(key: Option<Value>) -> Option<Seq<char>> {
    match key {
        None => Some(Seq::empty()),
        Some(k) => key_text(k),
    }
}

/// A table literal around `body`, closed at nesting level `depth`.
pub open spec fn table_text(body: Option<Seq<char>>, depth: nat) -> Option<Seq<char>> {
    join(join(Some("{\n"@), body), Some(indent(depth) + "}"@))
}

/// The Lua text of `v` at nesting level `depth`, without indentation before
/// it nor a comma after it; `None` where a tag that is rendered lacks its `!`.
pub open spec fn value_text(v: Value, depth: nat) -> Option<Seq<char>>
    decreases v, 0nat,
{
    match v {
        Value::Null => Some("nil"@),
        Value::Bool(b) => Some(bool_text(b)),
        Value::Number(n) => Some(n@),
        Value::Str(s) => Some("\""@ + escaped(s@) + "\""@),
        Value::Sequence(items) => table_text(items_text(items@, depth + 1), depth),
        Value::Mapping(entries) => table_text(entries_text(entries@, depth + 1), depth),
        Value::Tagged(tag, inner) => if tag@.len() > 0 && tag@[0] == '!' {
            table_text(
                join(
                    join(Some(indent(depth + 1) + "[\""@ + tag@.skip(1) + "\"] = "@), value_text(*inner, depth + 1)),
                    Some(",\n"@),
                ),
                depth,
            )
        } else {
            None
        },
    }
}

/// The lines of one entry at nesting level `depth`: indentation, key prefix,
/// value, `,` and a line break; nothing at all where the key cannot stand as
/// a Lua table key.
pub open spec fn entry_text(key: Option<Value>, v: Value, depth: nat) -> Option<Seq<char>>
    decreases v, 1nat,
{
    match key_prefix(key) {
        None => Some(Seq::empty()),
        Some(p) => join(join(Some(indent(depth) + p), value_text(v, depth)), Some(",\n"@)),
    }
}

/// The entries of the elements of a sequence, in order.
pub open spec fn items_text(items: Seq<Value>, depth: nat) -> Option<Seq<char>>
    decreases items, 0nat,
{
    if items.len() == 0 {
        Some(Seq::empty())
    } else {
        join(items_text(items.drop_last(), depth), entry_text(None, items.last(), depth))
    }
}

/// The entries of a mapping, in order.
pub open spec fn entries_text(entries: Seq<(Value, Value)>, depth: nat) -> Option<Seq<char>>
    decreases entries, 0nat,
{
    if entries.len() == 0 {
        Some(Seq::empty())
    } else {
        join(
            entries_text(entries.drop_last(), depth),
            entry_text(Some(entries.last().0), entries.last().1, depth),
        )
    }
}

/// The whole Lua text of a document: a table of the root's entries at
/// nesting level 1, closed without a line break after it.
pub open spec fn document_body(body: Option<Seq<char>>) -> Result<Seq<char>, ParseError> {
    match body {
        Some(b) => Ok("{\n"@ + b + "}"@),
        None => Err(ParseError::MalformedTag),
    }
}

/// What rendering the document `doc` gives: its Lua text, or why it has none.
pub open spec fn document_text(doc: Value) -> Result<Seq<char>, ParseError> {
    match doc {
        Value::Sequence(items) => if nesting(doc) > usize::MAX {
            Err(ParseError::TooDeep)
        } else {
            document_body(items_text(items@, 1))
        },
        Value::Mapping(entries) => if nesting(doc) > usize::MAX {
            Err(ParseError::TooDeep)
        } else {
            document_body(entries_text(entries@, 1))
        },
        _ => Err(ParseError::RootNotTable),
    }
}

/// The value behind an optional reference.
pub open spec fn key_of(key: Option<&Value>) -> Option<Value> {
    match key {
        Some(k) => Some(*k),
        None => None,
    }
}

/// The indentation of a line at nesting level `depth`.
pub fn get_indent(depth: usize) -> (r: String)
    ensures
        r@ == indent(depth as nat),
{
    let mut indent_text = String::new();
    let mut i: usize = 0;
    while i < depth
        invariant
            i <= depth,
            indent_text@ == indent(i as nat),
        decreases depth - i,
    {
        indent_text.append("\t");
        proof {
            reveal_strlit("\t");
        }
        assert(indent_text@ =~= indent((i + 1) as nat));
        i = i + 1;
    }
    indent_text
}

/// Appends the entries of the elements of `items` at nesting level `depth`.
fn write_items(items: &Vec<Value>, depth: usize, lua: &mut String) -> (r: Result<(), ParseError>)
    requires
        depth + items_nesting(items@) <= usize::MAX,
    ensures
        match items_text(items@, depth as nat) {
            Some(t) => r is Ok && final(lua)@ == old(lua)@ + t,
            None => r == Err::<(), ParseError>(ParseError::MalformedTag),
        },
    decreases items, 0nat,
{
    let ghost start = lua@;
    let mut i: usize = 0;
    assert(items@.take(0) =~= Seq::<Value>::empty());
    assert(start + Seq::<char>::empty() =~= start);
    while i < items.len()
        invariant
            i <= items@.len(),
            depth + items_nesting(items@) <= usize::MAX,
            items_text(items@.take(i as int), depth as nat) is Some,
            lua@ == start + items_text(items@.take(i as int), depth as nat)->Some_0,
        decreases items@.len() - i,
    {
        proof {
            assert(decreases_to!(items => items[i as int]));
            lemma_items_nesting_at_least(items@, i as int);
            assert(items@.take(i + 1).drop_last() =~= items@.take(i as int));
            assert(items@.take(i + 1).last() == items@[i as int]);
        }
        match walk(None, &items[i], depth, lua) {
            Ok(()) => {},
            Err(e) => {
                proof {
                    lemma_items_split(items@, i + 1, depth as nat);
                }
                return Err(e);
            },
        }
        assert(lua@ =~= start + items_text(items@.take(i + 1), depth as nat)->Some_0);
        i = i + 1;
    }
    assert(items@.take(i as int) =~= items@);
    Ok(())
}

/// Appends the entries of `entries` at nesting level `depth`.
fn write_entries(entries: &Vec<(Value, Value)>, depth: usize, lua: &mut String) -> (r: Result<
    (),
    ParseError,
>)
    requires
        depth + entries_nesting(entries@) <= usize::MAX,
    ensures
        match entries_text(entries@, depth as nat) {
            Some(t) => r is Ok && final(lua)@ == old(lua)@ + t,
            None => r == Err::<(), ParseError>(ParseError::MalformedTag),
        },
    decreases entries, 0nat,
{
    let ghost start = lua@;
    let mut i: usize = 0;
    assert(entries@.take(0) =~= Seq::<(Value, Value)>::empty());
    assert(start + Seq::<char>::empty() =~= start);
    while i < entries.len()
        invariant
            i <= entries@.len(),
            depth + entries_nesting(entries@) <= usize::MAX,
            entries_text(entries@.take(i as int), depth as nat) is Some,
            lua@ == start + entries_text(entries@.take(i as int), depth as nat)->Some_0,
        decreases entries@.len() - i,
    {
        proof {
            assert(decreases_to!(entries => entries[i as int]));
            assert(decreases_to!(entries[i as int] => entries[i as int].1));
            lemma_entries_nesting_at_least(entries@, i as int);
            assert(entries@.take(i + 1).drop_last() =~= entries@.take(i as int));
            assert(entries@.take(i + 1).last() == entries@[i as int]);
        }
        let entry = &entries[i];
        match walk(Some(&entry.0), &entry.1, depth, lua) {
            Ok(()) => {},
            Err(e) => {
                proof {
                    lemma_entries_split(entries@, i + 1, depth as nat);
                }
                return Err(e);
            },
        }
        assert(lua@ =~= start + entries_text(entries@.take(i + 1), depth as nat)->Some_0);
        i = i + 1;
    }
    assert(entries@.take(i as int) =~= entries@);
    Ok(())
}

/// Appends a tagged node at nesting level `depth`: a table whose one entry is
/// keyed by the tag's name (the tag without its `!`) and holds the wrapped node.
fn write_tagged(tag: &String, inner: &Box<Value>, depth: usize, lua: &mut String) -> (r: Result<
    (),
    ParseError,
>)
    requires
        depth + nesting(Value::Tagged(*tag, *inner)) <= usize::MAX,
    ensures
        match value_text(Value::Tagged(*tag, *inner), depth as nat) {
            Some(t) => r is Ok && final(lua)@ == old(lua)@ + t,
            None => r == Err::<(), ParseError>(ParseError::MalformedTag),
        },
    decreases **inner, 1nat,
{
    let ghost start = lua@;
    let tag_text = tag.as_str();
    let len = tag_text.unicode_len();
    if len == 0 || tag_text.get_char(0) != '!' {
        return Err(ParseError::MalformedTag);
    }
    let name = tag_text.substring_char(1, len);
    assert(name@ =~= tag@.skip(1));
    lua.append("{\n");
    let open_indent = get_indent(depth + 1);
    lua.append(open_indent.as_str());
    lua.append("[\"");
    lua.append(name);
    lua.append("\"] = ");
    match write_value(inner, depth + 1, lua) {
        Ok(()) => {},
        Err(e) => {
            return Err(e);
        },
    }
    lua.append(",\n");
    let close = get_indent(depth);
    lua.append(close.as_str());
    lua.append("}");
    assert(lua@ =~= start + ("{\n"@ + (indent((depth + 1) as nat) + "[\""@ + tag@.skip(1) + "\"] = "@
        + value_text(**inner, (depth + 1) as nat)->Some_0 + ",\n"@) + (indent(depth as nat) + "}"@)));
    Ok(())
}

/// Appends the Lua text of `value` at nesting level `depth`.
fn write_value(value: &Value, depth: usize, lua: &mut String) -> (r: Result<(), ParseError>)
    requires
        depth + nesting(*value) <= usize::MAX,
    ensures
        match value_text(*value, depth as nat) {
            Some(t) => r is Ok && final(lua)@ == old(lua)@ + t,
            None => r == Err::<(), ParseError>(ParseError::MalformedTag),
        },
    decreases value, 0nat,
{
    let ghost start = lua@;
    match value {
        Value::Null => {
            lua.append("nil");
        },
        Value::Bool(b) => {
            if *b {
                lua.append("true");
            } else {
                lua.append("false");
            }
        },
        Value::Number(n) => {
            lua.append(n.as_str());
        },
        Value::Str(s) => {
            let text = escape_string(s.as_str());
            lua.append("\"");
            lua.append(text.as_str());
            lua.append("\"");
            assert(lua@ =~= start + ("\""@ + escaped(s@) + "\""@));
        },
        Value::Sequence(items) => {
            lua.append("{\n");
            match write_items(items, depth + 1, lua) {
                Ok(()) => {},
                Err(e) => {
                    return Err(e);
                },
            }
            let close = get_indent(depth);
            lua.append(close.as_str());
            lua.append("}");
            assert(lua@ =~= start + ("{\n"@ + items_text(items@, (depth + 1) as nat)->Some_0 + (indent(
                depth as nat,
            ) + "}"@)));
        },
        Value::Mapping(entries) => {
            lua.append("{\n");
            match write_entries(entries, depth + 1, lua) {
                Ok(()) => {},
                Err(e) => {
                    return Err(e);
                },
            }
            let close = get_indent(depth);
            lua.append(close.as_str());
            lua.append("}");
            assert(lua@ =~= start + ("{\n"@ + entries_text(entries@, (depth + 1) as nat)->Some_0 + (indent(
                depth as nat,
            ) + "}"@)));
        },
        Value::Tagged(tag, inner) => {
            return write_tagged(tag, inner, depth, lua);
        },
    }
    Ok(())
}

/// Appends one entry at nesting level `depth`: its indentation, the key
/// prefix where a key is given, the value, `,` and a line break. An entry whose
/// key is null, a sequence, a mapping or a tagged node is left out whole.
pub fn walk(key: Option<&Value>, value: &Value, depth: usize, lua: &mut String) -> (r: Result<
    (),
    ParseError,
>)
    requires
        depth + nesting(*value) <= usize::MAX,
    ensures
        match entry_text(key_of(key), *value, depth as nat) {
            Some(t) => r is Ok && final(lua)@ == old(lua)@ + t,
            None => r == Err::<(), ParseError>(ParseError::MalformedTag),
        },
    decreases value, 2nat,
{
    let ghost start = lua@;
    let line_indent = get_indent(depth);
    match key {
        None => {
            lua.append(line_indent.as_str());
        },
        Some(Value::Str(s)) => {
            let text = escape_string(s.as_str());
            lua.append(line_indent.as_str());
            lua.append("[\"");
            lua.append(text.as_str());
            lua.append("\"] = ");
        },
        Some(Value::Number(n)) => {
            lua.append(line_indent.as_str());
            lua.append("[");
            lua.append(n.as_str());
            lua.append("] = ");
        },
        Some(Value::Bool(b)) => {
            lua.append(line_indent.as_str());
            lua.append("[");
            if *b {
                lua.append("true");
            } else {
                lua.append("false");
            }
            lua.append("] = ");
        },
        Some(_) => {
            assert(start + Seq::<char>::empty() =~= start);
            return Ok(());
        },
    }
    let ghost prefixed = lua@;
    assert(prefixed =~= start + (indent(depth as nat) + key_prefix(key_of(key))->Some_0));
    match write_value(value, depth, lua) {
        Ok(()) => {},
        Err(e) => {
            return Err(e);
        },
    }
    lua.append(",\n");
    assert(lua@ =~= start + ((indent(depth as nat) + key_prefix(key_of(key))->Some_0) + value_text(
        *value,
        depth as nat,
    )->Some_0 + ",\n"@));
    Ok(())
}

/// Renders the document `doc` as a Lua table constructor. The root must be
/// a sequence or a mapping; its entries stand one per line at nesting level 1.
pub fn parse(doc: &Value) -> (r: Result<String, ParseError>)
    ensures
        match document_text(*doc) {
            Ok(t) => r is Ok && r->Ok_0@ == t,
            Err(e) => r == Err::<String, ParseError>(e),
        },
        !(*doc is Sequence || *doc is Mapping) ==> r == Err::<String, ParseError>(
            ParseError::RootNotTable,
        ),
{
    match doc {
        Value::Sequence(_) | Value::Mapping(_) => {},
        _ => {
            return Err(ParseError::RootNotTable);
        },
    }
    if !fits_within(doc, usize::MAX) {
        return Err(ParseError::TooDeep);
    }
    let mut lua = String::new();
    lua.append("{\n");
    let written = match doc {
        Value::Sequence(items) => write_items(items, 1, &mut lua),
        Value::Mapping(entries) => write_entries(entries, 1, &mut lua),
        _ => Err(ParseError::RootNotTable),
    };
    match written {
        Ok(()) => {},
        Err(e) => {
            return Err(e);
        },
    }
    lua.append("}");
    Ok(lua)
}

/// Joining is associative.
pub proof fn lemma_join_assoc(a: Option<Seq<char>>, b: Option<Seq<char>>, c: Option<Seq<char>>)
    ensures
        join(join(a, b), c) == join(a, join(b, c)),
{
    if a is Some && b is Some && c is Some {
        assert((a->Some_0 + b->Some_0) + c->Some_0 =~= a->Some_0 + (b->Some_0 + c->Some_0));
    }
}

/// Joining with empty text changes nothing.
pub proof fn lemma_join_empty(a: Option<Seq<char>>)
    ensures
        join(a, Some(Seq::empty())) == a,
{
    if a is Some {
        assert(a->Some_0 + Seq::<char>::empty() =~= a->Some_0);
    }
}

/// Order is kept: the entries of a sequence are those of its first `k`
/// elements followed by those of the rest.
pub proof fn lemma_items_split(items: Seq<Value>, k: int, depth: nat)
    requires
        0 <= k <= items.len(),
    ensures
        items_text(items, depth) == join(items_text(items.take(k), depth), items_text(items.skip(k), depth)),
    decreases items.len(),
{
    if k == items.len() {
        assert(items.take(k) =~= items);
        assert(items.skip(k) =~= Seq::<Value>::empty());
        lemma_join_empty(items_text(items, depth));
    } else {
        let init = items.drop_last();
        lemma_items_split(init, k, depth);
        assert(init.take(k) =~= items.take(k));
        assert(items.skip(k).drop_last() =~= init.skip(k));
        lemma_join_assoc(
            items_text(items.take(k), depth),
            items_text(init.skip(k), depth),
            entry_text(None, items.last(), depth),
        );
    }
}

/// Order is kept: the entries of a mapping are those of its first `k`
/// entries followed by those of the rest.
pub proof fn lemma_entries_split(entries: Seq<(Value, Value)>, k: int, depth: nat)
    requires
        0 <= k <= entries.len(),
    ensures
        entries_text(entries, depth) == join(
            entries_text(entries.take(k), depth),
            entries_text(entries.skip(k), depth),
        ),
    decreases entries.len(),
{
    if k == entries.len() {
        assert(entries.take(k) =~= entries);
        assert(entries.skip(k) =~= Seq::<(Value, Value)>::empty());
        lemma_join_empty(entries_text(entries, depth));
    } else {
        let init = entries.drop_last();
        lemma_entries_split(init, k, depth);
        assert(init.take(k) =~= entries.take(k));
        assert(entries.skip(k).drop_last() =~= init.skip(k));
        lemma_join_assoc(
            entries_text(entries.take(k), depth),
            entries_text(init.skip(k), depth),
            entry_text(Some(entries.last().0), entries.last().1, depth),
        );
    }
}

/// A mapping entry whose key is null, a sequence, a mapping or a tagged node
/// leaves no trace: the mapping renders as if the entry were not there.
pub proof fn lemma_unkeyable_entry_dropped(entries: Seq<(Value, Value)>, i: int, depth: nat)
    requires
        0 <= i < entries.len(),
        entries[i].0 is Null || entries[i].0 is Sequence || entries[i].0 is Mapping
            || entries[i].0 is Tagged,
    ensures
        entries_text(entries, depth) == entries_text(entries.remove(i), depth),
{
    let rest = entries.skip(i);
    let removed = entries.remove(i);
    lemma_entries_split(entries, i, depth);
    lemma_entries_split(rest, 1, depth);
    lemma_entries_split(removed, i, depth);
    assert(rest.take(1).drop_last() =~= Seq::<(Value, Value)>::empty());
    assert(rest.take(1).last() == entries[i]);
    assert(Seq::<char>::empty() + Seq::<char>::empty() =~= Seq::<char>::empty());
    assert(key_text(entries[i].0) is None);
    assert(entry_text(Some(entries[i].0), entries[i].1, depth) == Some(Seq::<char>::empty()));
    assert(entries_text(rest.take(1).drop_last(), depth) == Some(Seq::<char>::empty()));
    assert(entries_text(rest.take(1), depth) == Some(Seq::<char>::empty()));
    assert(removed.take(i) =~= entries.take(i));
    assert(removed.skip(i) =~= rest.skip(1));
    match entries_text(rest.skip(1), depth) {
        Some(t) => {
            assert(Seq::<char>::empty() + t =~= t);
        },
        None => {},
    }
    assert(entries_text(rest, depth) == entries_text(rest.skip(1), depth));
}

/// Rendering is a function of the document: equal documents give the same
/// text, or the same error.
pub proof fn lemma_deterministic(a: Value, b: Value)
    requires
        a == b,
    ensures
        document_text(a) == document_text(b),
        forall|depth: nat| #[trigger] value_text(a, depth) == value_text(b, depth),
{
}

} // verus!
