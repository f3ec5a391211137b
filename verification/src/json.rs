//! JSON texts, read and written through `serde_json`.
//!
//! Of a JSON value the library looks at texts and arrays, no deeper than an array of
//! arrays inside the outermost array or object. [`Entry`] holds just that.

use vstd::prelude::*;
use serde_json::Value;
use crate::text;

verus! {

/// A value inside an [`Entry`].
pub struct Item {
    /// The value's text, if it is a text.
    pub text: Option<String>,
    /// The value's elements, if it is an array, each with its text if it is a text.
    pub texts: Option<Vec<Option<String>>>,
}

/// A value inside the outermost one.
pub struct Entry {
    /// The value's text, if it is a text.
    pub text: Option<String>,
    /// The value's elements, if it is an array.
    pub items: Option<Vec<Item>>,
}

/// A value that is written into an array.
pub enum Written {
    /// A text.
    Text(String),
    /// An array of arrays of two texts each.
    Pairs(Vec<(String, String)>),
}

/// What an [`Item`] holds.
#[verifier::ext_equal]
pub ghost struct ItemView {
    pub text: Option<Seq<char>>,
    pub texts: Option<Seq<Option<Seq<char>>>>,
}

/// What an [`Entry`] holds.
#[verifier::ext_equal]
pub ghost struct EntryView {
    pub text: Option<Seq<char>>,
    pub items: Option<Seq<ItemView>>,
}

impl View for Item {
    type V = ItemView;

    open spec fn view(&self) -> ItemView {
        ItemView {
            text: text::optional(self.text),
            texts: match self.texts {
                Some(v) => Some(v@.map_values(|t: Option<String>| text::optional(t))),
                None => None,
            },
        }
    }
}

impl View for Entry {
    type V = EntryView;

    open spec fn view(&self) -> EntryView {
        EntryView {
            text: text::optional(self.text),
            items: match self.items {
                Some(v) => Some(v@.map_values(|i: Item| i@)),
                None => None,
            },
        }
    }
}

/// What the entries of a vector hold.
pub open spec fn entry_views(v: Seq<Entry>) -> Seq<EntryView> {
    v.map_values(|e: Entry| e@)
}

/// What an optional entry holds.
pub open spec fn optional_entry(e: Option<Entry>) -> Option<EntryView> {
    match e {
        Some(e) => Some(e@),
        None => None,
    }
}

/// The array of two texts.
pub open spec fn pair_item(k: Seq<char>, v: Seq<char>) -> ItemView {
    ItemView { text: None, texts: Some(seq![Some(k), Some(v)]) }
}

impl View for Written {
    type V = EntryView;

    open spec fn view(&self) -> EntryView {
        match *self {
            Written::Text(s) => EntryView { text: Some(s@), items: None },
            Written::Pairs(ps) => EntryView {
                text: None,
                items: Some(ps@.map_values(|p: (String, String)| pair_item(p.0@, p.1@))),
            },
        }
    }
}

/// What came of reading a text as an array: its entries, or that it is no array, or
/// the text of the error.
pub open spec fn outcome(r: Result<Option<Vec<Entry>>, String>) -> Result<
    Option<Seq<EntryView>>,
    Seq<char>,
> {
    match r {
        Ok(Some(v)) => Ok(Some(entry_views(v@))),
        Ok(None) => Ok(None),
        Err(e) => Err(e@),
    }
}

/// What `serde_json::from_str` reads out of a text: the entries of the array, if it is
/// one, or the text of the error.
pub uninterp spec fn json_array(text: Seq<char>) -> Result<Option<Seq<EntryView>>, Seq<char>>;

/// What `serde_json::Value::get` gives for a member of the object that a text holds.
pub uninterp spec fn json_member(text: Seq<char>, key: Seq<char>) -> Option<EntryView>;

/// `serde_json::from_str` into a `serde_json::Value`, whose array is then handed out
/// as plain values. The claim is only that the outcome, down to the text of the error,
/// depends on nothing but the text that is read.
#[verifier::external_body]
pub(crate) fn read_array(text: &str) -> (r: Result<Option<Vec<Entry>>, String>)
    ensures
        outcome(r) == json_array(text@),
{
    let leaf = |v: &Value| v.as_str().map(String::from);
    let item = |v: &Value| Item {
        text: leaf(v),
        texts: v.as_array().map(|a| a.iter().map(leaf).collect()),
    };
    let entry = |v: &Value| Entry {
        text: leaf(v),
        items: v.as_array().map(|a| a.iter().map(item).collect()),
    };
    let value: Value = serde_json::from_str(text).map_err(|e| e.to_string())?;
    Ok(value.as_array().map(|a| a.iter().map(entry).collect()))
}

/// `serde_json::Value::get` on what `serde_json::from_str` reads, handed out as plain
/// values. The claim is only that the member depends on nothing but the text and the
/// key; a text that cannot be read, or is no object, has no members.
#[verifier::external_body]
pub(crate) fn read_member(text: &str, key: &str) -> (r: Option<Entry>)
    ensures
        optional_entry(r) == json_member(text@, key@),
{
    let leaf = |v: &Value| v.as_str().map(String::from);
    let item = |v: &Value| Item {
        text: leaf(v),
        texts: v.as_array().map(|a| a.iter().map(leaf).collect()),
    };
    let value: Value = serde_json::from_str(text).ok()?;
    value.get(key).map(|v| Entry {
        text: leaf(v),
        items: v.as_array().map(|a| a.iter().map(item).collect()),
    })
}

/// Reading the text gives the array of these entries.
pub open spec fn reads_back(text: Seq<char>, entries: Seq<EntryView>) -> bool {
    json_array(text) == Ok::<Option<Seq<EntryView>>, Seq<char>>(Some(entries))
}

/// The text is bracketed and holds no line break.
pub open spec fn stands_in_one_line(text: Seq<char>) -> bool {
    text.len() >= 2 && text.first() == '[' && text.last() == ']' && !text.contains('\n')
}

/// `serde_json::to_string` on an array of texts and of arrays of text pairs. It
/// claims that such an array is always written, that the text begins with `[`,
/// ends with `]` and holds no line break, since line breaks inside texts are
/// escaped, and that `serde_json::from_str` reads the same array back.
#[verifier::external_body]
pub(crate) fn write_array(values: &Vec<Written>) -> (r: Result<String, String>)
    ensures
        match r {
            Ok(t) => reads_back(t@, values@.map_values(|w: Written| w@)) && stands_in_one_line(t@),
            Err(e) => false,
        },
{
    let pair = |p: &(String, String)| Value::from(vec![p.0.as_str(), p.1.as_str()]);
    let value = |w: &Written| match w {
        Written::Text(s) => Value::from(s.as_str()),
        Written::Pairs(ps) => ps.iter().map(pair).collect(),
    };
    let array: Value = values.iter().map(value).collect();
    serde_json::to_string(&array).map_err(|e| e.to_string())
}

} // verus!
