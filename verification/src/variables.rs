//! Template variables as the template engine takes them.

use crate::config::TemplateContext;
use crate::engine::{
    context_of, is_object, keyed, list_value, make_context, make_list, make_object, make_text,
    object_value, text_value,
};
use crate::strmap::StrMap;
use crate::template::TemplateValue;
use vstd::prelude::*;

verus! {

/// The engine value that stands for `value`: a string for a leaf, an array
/// for a sequence, an object for a mapping, of the values that stand for
/// its parts.
pub closed spec fn value_of(value: TemplateValue) -> tera::Value
    decreases value,
{
    match value {
        TemplateValue::Value(text) => text_value(text@),
        TemplateValue::Mapping(map) => object_value(entries_of(map.entries@)),
        TemplateValue::Sequence(items) => list_value(values_of(items@)),
    }
}

/// The engine values that stand for `items`, in their order.
pub closed spec fn values_of(items: Seq<TemplateValue>) -> Seq<tera::Value>
    decreases items,
{
    Seq::new(
        items.len(),
        |i: int|
            if 0 <= i < items.len() {
                value_of(items[i])
            } else {
                arbitrary()
            },
    )
}

/// The keys of `entries` with the engine values that stand for their
/// values, in their order.
pub closed spec fn entries_of(entries: Seq<(String, TemplateValue)>) -> Seq<
    (Seq<char>, tera::Value),
>
    decreases entries,
{
    Seq::new(
        entries.len(),
        |i: int|
            if 0 <= i < entries.len() {
                (entries[i].0@, value_of(entries[i].1))
            } else {
                arbitrary()
            },
    )
}

/// The engine object that stands for the variables of `map`.
pub open spec fn object_of(map: StrMap<TemplateValue>) -> tera::Value {
    value_of(TemplateValue::Mapping(map))
}

/// Builds the engine value that stands for `value`.
pub fn to_value(value: &TemplateValue) -> (made: tera::Value)
    ensures
        made == value_of(*value),
    decreases value,
{
    match value {
        TemplateValue::Value(text) => make_text(text.as_str()),
        TemplateValue::Mapping(map) => to_object(map),
        TemplateValue::Sequence(items) => {
            let mut made: Vec<tera::Value> = Vec::new();
            let mut i: usize = 0;
            while i < items.len()
                invariant
                    i <= items.len(),
                    *value == TemplateValue::Sequence(*items),
                    made.len() == i,
                    forall|j: int| 0 <= j < i ==> (#[trigger] made[j]) == value_of(items@[j]),
                decreases items.len() - i,
            {
                proof {
                    assert(value->Sequence_0 == *items);
                    assert(decreases_to!(*value => items@[i as int]));
                }
                made.push(to_value(&items[i]));
                i += 1;
            }
            assert(made@ =~= values_of(items@));
            make_list(made)
        },
    }
}

/// Builds the engine object that stands for the variables of `map`.
pub fn to_object(map: &StrMap<TemplateValue>) -> (made: tera::Value)
    ensures
        made == object_of(*map),
    decreases map,
{
    let mut made: Vec<(String, tera::Value)> = Vec::new();
    let mut i: usize = 0;
    proof {
        map.lemma_entries();
    }
    while i < map.len()
        invariant
            i <= map.entries@.len(),
            map.entries().len() == map.entries@.len(),
            made.len() == i,
            forall|j: int|
                0 <= j < i ==> (#[trigger] made[j]).0@ == map.entries@[j].0@ && made[j].1
                    == value_of(map.entries@[j].1),
        decreases map.entries@.len() - i,
    {
        let key = map.key_at(i);
        let value = map.value_at(i);
        proof {
            map.lemma_entries();
            assert(*value == map.entries@[i as int].1);
            assert(decreases_to!(map => map.entries@[i as int].1));
        }
        made.push((key.clone(), to_value(value)));
        i += 1;
    }
    assert(keyed(made@) =~= entries_of(map.entries@));
    make_object(made)
}

impl TemplateContext {
    /// The rendering context that holds the variables. The variables make
    /// an object of the engine, so there always is one.
    pub fn context(&self) -> (made: Result<tera::Context, tera::Error>)
        ensures
            made matches Ok(context) && context == context_of(object_of(self.0)),
    {
        let object = to_object(&self.0);
        proof {
            assert(object == object_value(entries_of(self.0.entries@)));
            assert(is_object(object));
        }
        make_context(object)
    }
}

} // verus!
