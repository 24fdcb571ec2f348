use vstd::prelude::*;

verus! {

/// One node of a YAML document.
pub enum Value {
    Null,
    Bool(bool),
    /// A number, held as the text of its canonical form (`420`, `4.2`).
    Number(String),
    Str(String),
    Sequence(Vec<Value>),
    /// Entries in document order; keys may be of any kind.
    Mapping(Vec<(Value, Value)>),
    /// A tagged node: the tag as written, with its leading `!`, and the node it wraps.
    Tagged(String, Box<Value>),
}

/// Why a document cannot be rendered.
#[derive(Clone, Copy, Debug, PartialEq, Eq, Structural)]
pub enum ParseError {
    /// The root of the document is neither a sequence nor a mapping.
    RootNotTable,
    /// A tag that is rendered does not begin with `!`.
    MalformedTag,
    /// The document nests deeper than an indentation level can count.
    TooDeep,
}

/// How many levels of tables (sequences, mappings, tag wrappers) `v` holds,
/// itself included.
pub open spec fn nesting(v: Value) -> nat
    decreases v,
{
    match v {
        Value::Sequence(items) => 1 + items_nesting(items@),
        Value::Mapping(entries) => 1 + entries_nesting(entries@),
        Value::Tagged(_, inner) => 1 + nesting(*inner),
        _ => 0,
    }
}

/// The deepest nesting among `items`.
pub open spec fn items_nesting(items: Seq<Value>) -> nat
    decreases items,
{
    if items.len() == 0 {
        0
    } else {
        vstd::math::max(items_nesting(items.drop_last()) as int, nesting(items.last()) as int) as nat
    }
}

/// The deepest nesting among the values of `entries`.
pub open spec fn entries_nesting(entries: Seq<(Value, Value)>) -> nat
    decreases entries,
{
    if entries.len() == 0 {
        0
    } else {
        vstd::math::max(entries_nesting(entries.drop_last()) as int, nesting(entries.last().1) as int) as nat
    }
}

/// Whether `v` holds at most `room` levels of tables.
pub fn fits_within(v: &Value, room: usize) -> (r: bool)
    ensures
        r == (nesting(*v) <= room),
    decreases v,
{
    match v {
        Value::Sequence(items) => {
            if room == 0 {
                return false;
            }
            let mut i: usize = 0;
            assert(items@.take(0) =~= Seq::<Value>::empty());
            while i < items.len()
                invariant
                    *v == Value::Sequence(*items),
                    decreases_to!(*v => *items),
                    i <= items@.len(),
                    room >= 1,
                    items_nesting(items@.take(i as int)) <= room - 1,
                decreases items@.len() - i,
            {
                proof {
                    assert(decreases_to!(items => items[i as int]));

                }
                assert(items@.take(i + 1).drop_last() =~= items@.take(i as int));
                let fits = fits_within(&items[i], room - 1);
                if !fits {
                    proof {
                        lemma_items_nesting_at_least(items@, i as int);
                    }
                    return false;
                }
                i = i + 1;
            }
            assert(items@.take(i as int) =~= items@);
            true
        },
        Value::Mapping(entries) => {
            if room == 0 {
                return false;
            }
            let mut i: usize = 0;
            assert(entries@.take(0) =~= Seq::<(Value, Value)>::empty());
            while i < entries.len()
                invariant
                    *v == Value::Mapping(*entries),
                    decreases_to!(*v => *entries),
                    i <= entries@.len(),
                    room >= 1,
                    entries_nesting(entries@.take(i as int)) <= room - 1,
                decreases entries@.len() - i,
            {
                proof {
                    assert(decreases_to!(entries => entries[i as int]));
                    assert(decreases_to!(entries[i as int] => entries[i as int].1));
                }
                assert(entries@.take(i + 1).drop_last() =~= entries@.take(i as int));
                let fits = fits_within(&entries[i].1, room - 1);
                if !fits {
                    proof {
                        lemma_entries_nesting_at_least(entries@, i as int);
                    }
                    return false;
                }
                i = i + 1;
            }
            assert(entries@.take(i as int) =~= entries@);
            true
        },
        Value::Tagged(_, inner) => {
            if room == 0 {
                return false;
            }
            fits_within(inner, room - 1)
        },
        _ => true,
    }
}

/// No item nests deeper than the sequence's nesting.
pub proof fn lemma_items_nesting_at_least(items: Seq<Value>, i: int)
    requires
        0 <= i < items.len(),
    ensures
        nesting(items[i]) <= items_nesting(items),
    decreases items.len(),
{
    if i < items.len() - 1 {
        lemma_items_nesting_at_least(items.drop_last(), i);
    }
}

/// No value of an entry nests deeper than the mapping's nesting.
pub proof fn lemma_entries_nesting_at_least(entries: Seq<(Value, Value)>, i: int)
    requires
        0 <= i < entries.len(),
    ensures
        nesting(entries[i].1) <= entries_nesting(entries),
    decreases entries.len(),
{
    if i < entries.len() - 1 {
        lemma_entries_nesting_at_least(entries.drop_last(), i);
    }
}

} // verus!
