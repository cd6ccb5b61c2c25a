//! The insertion-ordered maps (`indexmap::IndexMap`) that hold a device's channels and an
//! experiment's devices, and the regular-expression check of channel names (`regex`).
//!
//! Everything in this file is trusted: each function below makes one call into the outside
//! crate, and its contract restates what that crate documents. The contents of a map are
//! named as the sequence of its `(key, value)` entries in insertion order.
use vstd::prelude::*;
use indexmap::IndexMap;
use crate::channel::Channel;
use crate::device::{Device, editable_entries};
use crate::utils::{all_ascii_digits, contains_seq, first_index_of};

verus! {

#[verifier::external_type_specification]
#[verifier::external_body]
#[verifier::reject_recursive_types(K)]
#[verifier::reject_recursive_types(V)]
#[verifier::reject_recursive_types(S)]
pub struct ExIndexMap<K, V, S>(IndexMap<K, V, S>);

#[verifier::external_type_specification]
#[verifier::external_body]
pub struct ExRegexError(regex::Error);

// ---------------------------------------------------------------------------
// Channel maps
// ---------------------------------------------------------------------------
/// The entries of a channel map, in order.
pub uninterp spec fn chan_entries(m: IndexMap<String, Channel>) -> Seq<(Seq<char>, Channel)>;

/// `IndexMap::new`: an empty map.
#[verifier::external_body]
pub(crate) fn chan_map_new() -> (m: IndexMap<String, Channel>)
    ensures
        chan_entries(m) == Seq::<(Seq<char>, Channel)>::empty(),
{
    IndexMap::new()
}

/// `IndexMap::len`: the number of entries.
#[verifier::external_body]
pub(crate) fn chan_map_len(m: &IndexMap<String, Channel>) -> (n: usize)
    ensures
        n == chan_entries(*m).len(),
{
    m.len()
}

/// `IndexMap::get_index`: the entry at position `i`.
#[verifier::external_body]
pub(crate) fn chan_map_get(m: &IndexMap<String, Channel>, i: usize) -> (r: (&String, &Channel))
    requires
        i < chan_entries(*m).len(),
    ensures
        r.0@ == chan_entries(*m)[i as int].0,
        *r.1 == chan_entries(*m)[i as int].1,
{
    m.get_index(i).unwrap()
}

/// `IndexMap::get_index_mut`: the value of the entry at position `i`, to modify in place;
/// the key and the order stay.
#[verifier::external_body]
pub(crate) fn chan_map_get_mut(m: &mut IndexMap<String, Channel>, i: usize) -> (r: &mut Channel)
    requires
        i < chan_entries(*old(m)).len(),
    ensures
        *r == chan_entries(*old(m))[i as int].1,
        chan_entries(*final(m)) == chan_entries(*old(m)).update(
            i as int,
            (chan_entries(*old(m))[i as int].0, *final(r)),
        ),
{
    m.get_index_mut(i).unwrap().1
}

/// `IndexMap::get_index_of`: the position of the entry whose key equals `key`.
#[verifier::external_body]
pub(crate) fn chan_map_index_of(m: &IndexMap<String, Channel>, key: &str) -> (r: Option<usize>)
    ensures
        r matches Some(i) ==> i < chan_entries(*m).len() && chan_entries(*m)[i as int].0 == key@,
        r is None ==> forall|i: int| 0 <= i < chan_entries(*m).len() ==> #[trigger] chan_entries(*m)[i].0 != key@,
{
    m.get_index_of(key)
}

/// `IndexMap::insert`: a key already present keeps its place and gets the new value (the old
/// one is returned); a new key is appended last.
#[verifier::external_body]
pub(crate) fn chan_map_insert(m: &mut IndexMap<String, Channel>, key: String, value: Channel) -> (r: Option<Channel>)
    ensures
        (exists|i: int| 0 <= i < chan_entries(*old(m)).len() && #[trigger] chan_entries(*old(m))[i].0 == key@)
            ==> exists|i: int|
            0 <= i < chan_entries(*old(m)).len() && #[trigger] chan_entries(*old(m))[i].0 == key@
                && r == Some(chan_entries(*old(m))[i].1) && chan_entries(*final(m)) == chan_entries(
                *old(m),
            ).update(i, (key@, value)),
        (forall|i: int| 0 <= i < chan_entries(*old(m)).len() ==> #[trigger] chan_entries(*old(m))[i].0 != key@)
            ==> r is None && chan_entries(*final(m)) == chan_entries(*old(m)).push((key@, value)),
{
    m.insert(key, value)
}

/// `IndexMap::retain` with a test that keeps the editable channels: the entries whose
/// channel is editable remain, in their order.
#[verifier::external_body]
pub(crate) fn chan_map_retain_editable(m: &mut IndexMap<String, Channel>)
    ensures
        chan_entries(*final(m)) == editable_entries(chan_entries(*old(m))),
{
    m.retain(|_key, chan| chan.editable())
}

// ---------------------------------------------------------------------------
// Device maps
// ---------------------------------------------------------------------------
/// The entries of a device map, in order.
pub uninterp spec fn dev_entries(m: IndexMap<String, Device>) -> Seq<(Seq<char>, Device)>;

/// `IndexMap::new`: an empty map.
#[verifier::external_body]
pub(crate) fn dev_map_new() -> (m: IndexMap<String, Device>)
    ensures
        dev_entries(m) == Seq::<(Seq<char>, Device)>::empty(),
{
    IndexMap::new()
}

/// `IndexMap::len`: the number of entries.
#[verifier::external_body]
pub(crate) fn dev_map_len(m: &IndexMap<String, Device>) -> (n: usize)
    ensures
        n == dev_entries(*m).len(),
{
    m.len()
}

/// `IndexMap::get_index`: the entry at position `i`.
#[verifier::external_body]
pub(crate) fn dev_map_get(m: &IndexMap<String, Device>, i: usize) -> (r: (&String, &Device))
    requires
        i < dev_entries(*m).len(),
    ensures
        r.0@ == dev_entries(*m)[i as int].0,
        *r.1 == dev_entries(*m)[i as int].1,
{
    m.get_index(i).unwrap()
}

/// `IndexMap::get_index_mut`: the value of the entry at position `i`, to modify in place;
/// the key and the order stay.
#[verifier::external_body]
pub(crate) fn dev_map_get_mut(m: &mut IndexMap<String, Device>, i: usize) -> (r: &mut Device)
    requires
        i < dev_entries(*old(m)).len(),
    ensures
        *r == dev_entries(*old(m))[i as int].1,
        dev_entries(*final(m)) == dev_entries(*old(m)).update(
            i as int,
            (dev_entries(*old(m))[i as int].0, *final(r)),
        ),
{
    m.get_index_mut(i).unwrap().1
}

/// `IndexMap::get_index_of`: the position of the entry whose key equals `key`.
#[verifier::external_body]
pub(crate) fn dev_map_index_of(m: &IndexMap<String, Device>, key: &str) -> (r: Option<usize>)
    ensures
        r matches Some(i) ==> i < dev_entries(*m).len() && dev_entries(*m)[i as int].0 == key@,
        r is None ==> forall|i: int| 0 <= i < dev_entries(*m).len() ==> #[trigger] dev_entries(*m)[i].0 != key@,
{
    m.get_index_of(key)
}

/// `IndexMap::insert`: a key already present keeps its place and gets the new value (the old
/// one is returned); a new key is appended last.
#[verifier::external_body]
pub(crate) fn dev_map_insert(m: &mut IndexMap<String, Device>, key: String, value: Device) -> (r: Option<Device>)
    ensures
        (exists|i: int| 0 <= i < dev_entries(*old(m)).len() && #[trigger] dev_entries(*old(m))[i].0 == key@)
            ==> exists|i: int|
            0 <= i < dev_entries(*old(m)).len() && #[trigger] dev_entries(*old(m))[i].0 == key@
                && r == Some(dev_entries(*old(m))[i].1) && dev_entries(*final(m)) == dev_entries(
                *old(m),
            ).update(i, (key@, value)),
        (forall|i: int| 0 <= i < dev_entries(*old(m)).len() ==> #[trigger] dev_entries(*old(m))[i].0 != key@)
            ==> r is None && dev_entries(*final(m)) == dev_entries(*old(m)).push((key@, value)),
{
    m.insert(key, value)
}

// ---------------------------------------------------------------------------
// Regular expressions
// ---------------------------------------------------------------------------
/// Whether the regular expression `pattern` (in the syntax of the `regex` crate) matches
/// somewhere in `text`.
pub uninterp spec fn regex_matches(pattern: Seq<char>, text: Seq<char>) -> bool;

/// `text` is `prefix` followed by one or more ASCII decimal digits.
pub open spec fn prefix_then_digits(prefix: Seq<char>, text: Seq<char>) -> bool {
    &&& text.len() > prefix.len()
    &&& text.take(prefix.len() as int) == prefix
    &&& all_ascii_digits(text.skip(prefix.len() as int))
}

/// `text` is `port<digits>/line<digits>` with ASCII decimal digits.
pub open spec fn port_line_ascii(text: Seq<char>) -> bool {
    let i = first_index_of(text, '/');
    &&& i < text.len()
    &&& prefix_then_digits("port"@, text.take(i))
    &&& prefix_then_digits("line"@, text.skip(i + 1))
}

/// `text` begins with `prefix` and has more after it.
pub open spec fn starts_before_more(prefix: Seq<char>, text: Seq<char>) -> bool {
    text.len() > prefix.len() && text.take(prefix.len() as int) == prefix
}

/// `regex::Regex::new(pattern)` followed by `Regex::is_match(text)`: `Err` when the pattern
/// does not compile, otherwise whether it matches. `Regex::new` fails only on an invalid
/// pattern or one whose compiled form exceeds the default size limit (10 MiB); the two
/// channel-name patterns are valid and small, so for them the result is `Ok`. For any other
/// pattern nothing is claimed of when it compiles. Of the two channel-name patterns the
/// crate's syntax documentation gives these facts: `^` and `$` anchor at the ends of the text,
/// and `\d` (a Unicode decimal digit) takes in the ASCII digits `0`-`9`; so a name made of the
/// literal parts and ASCII digits matches, and a name that does not begin with the first
/// literal part (followed by more), or a DO name without the literal `/line` in it, does not. Which non-ASCII digits `\d` takes in is left
/// unsaid.
#[verifier::external_body]
pub(crate) fn regex_is_match(pattern: &str, text: &str) -> (r: Result<bool, regex::Error>)
    ensures
        r matches Ok(b) ==> b == regex_matches(pattern@, text@),
        pattern@ == "^ao\\d+$"@ || pattern@ == "^port\\d+/line\\d+$"@ ==> r is Ok,
        pattern@ == "^ao\\d+$"@ && prefix_then_digits("ao"@, text@) ==> r matches Ok(true),
        pattern@ == "^ao\\d+$"@ && !starts_before_more("ao"@, text@) ==> r matches Ok(false),
        pattern@ == "^port\\d+/line\\d+$"@ && port_line_ascii(text@) ==> r matches Ok(true),
        pattern@ == "^port\\d+/line\\d+$"@ && !starts_before_more("port"@, text@) ==> r matches Ok(false),
        pattern@ == "^port\\d+/line\\d+$"@ && !contains_seq(text@, "/line"@) ==> r matches Ok(false),
{
    regex::Regex::new(pattern).map(|re| re.is_match(text))
}

} // verus!
