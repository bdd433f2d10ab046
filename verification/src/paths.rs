//! Entity paths: from topics, and from frame names and topics through
//! mapping tables whose entries are written `NAME=/path`.

use vstd::prelude::*;
use vstd::string::*;
use crate::convert::name_views;
use crate::text::str_eq;

verus! {

/// The position of the first `x` in `s`, or the length of `s` where there is
/// none.
pub open spec fn position_of<T>(s: Seq<T>, x: T) -> int
    decreases s.len(),
{
    if s.len() == 0 {
        0
    } else if s[0] == x {
        0
    } else {
        1 + position_of(s.drop_first(), x)
    }
}

/// `position_of` finds the first occurrence, and only that.
pub proof fn lemma_position_of<T>(s: Seq<T>, x: T)
    ensures
        0 <= position_of(s, x) <= s.len(),
        position_of(s, x) < s.len() ==> s[position_of(s, x)] == x,
        forall|i: int| 0 <= i < position_of(s, x) ==> s[i] != x,
    decreases s.len(),
{
    if s.len() != 0 && s[0] != x {
        let t = s.drop_first();
        lemma_position_of(t, x);
        assert forall|i: int| 0 <= i < position_of(s, x) implies s[i] != x by {
            if i > 0 {
                assert(s[i] == t[i - 1]);
            }
        }
    }
}

/// `s` cut at its first equals sign, which is dropped; nothing where `s` has
/// none.
pub open spec fn split_at_equals(s: Seq<char>) -> Option<(Seq<char>, Seq<char>)> {
    let i = position_of(s, '=');
    if i < s.len() {
        Some((s.subrange(0, i), s.subrange(i + 1, s.len() as int)))
    } else {
        None
    }
}

/// Cuts `s` at its first equals sign.
pub fn split_once_equals(s: &str) -> (r: Option<(&str, &str)>)
    ensures
        match r {
            Some((left, right)) => split_at_equals(s@) == Some((left@, right@)),
            None => split_at_equals(s@) is None,
        },
{
    let n = s.unicode_len();
    let mut i: usize = 0;
    while i < n
        invariant
            i <= n,
            n == s@.len(),
            forall|k: int| 0 <= k < i ==> s@[k] != '=',
        decreases n - i,
    {
        if s.get_char(i) == '=' {
            proof {
                lemma_position_of(s@, '=');
            }
            return Some((s.substring_char(0, i), s.substring_char(i + 1, n)));
        }
        i = i + 1;
    }
    proof {
        lemma_position_of(s@, '=');
    }
    None
}

/// Where the entry `NAME=/path` of `mappings` is found whose name is `name`:
/// the path of the first such entry. Entries without an equals sign are
/// passed over.
pub open spec fn mapped(mappings: Seq<Seq<char>>, name: Seq<char>) -> Option<Seq<char>>
    decreases mappings.len(),
{
    if mappings.len() == 0 {
        None
    } else {
        match split_at_equals(mappings[0]) {
            Some((key, path)) => if key == name {
                Some(path)
            } else {
                mapped(mappings.drop_first(), name)
            },
            None => mapped(mappings.drop_first(), name),
        }
    }
}

fn lookup(mappings: &Vec<String>, name: &str) -> (r: Option<String>)
    ensures
        match r {
            Some(path) => mapped(name_views(mappings@), name@) == Some(path@),
            None => mapped(name_views(mappings@), name@) is None,
        },
{
    let ghost all = name_views(mappings@);
    assert(all.skip(0) =~= all);
    let mut i: usize = 0;
    while i < mappings.len()
        invariant
            i <= mappings@.len(),
            all == name_views(mappings@),
            mapped(all, name@) == mapped(all.skip(i as int), name@),
        decreases mappings@.len() - i,
    {
        assert(all.skip(i as int).drop_first() =~= all.skip(i + 1));
        assert(all.skip(i as int)[0] == mappings@[i as int]@);
        match split_once_equals(mappings[i].as_str()) {
            Some((key, path)) => {
                if str_eq(key, name) {
                    return Some(path.to_owned());
                }
            },
            None => {},
        }
        i = i + 1;
    }
    None
}

/// The entity path of a frame: the one that `map_frame` gives it, else the
/// frame's name under the root frame.
pub open spec fn frame_path(
    frame: Seq<char>,
    root_frame: Seq<char>,
    map_frame: Seq<Seq<char>>,
) -> Seq<char> {
    match mapped(map_frame, frame) {
        Some(path) => path,
        None => "/"@ + root_frame + "/"@ + frame,
    }
}

/// The entity path of a frame.
pub fn map_frame_to_path(frame: &str, root_frame: &str, map_frame: &Vec<String>) -> (path: String)
    ensures
        path@ == frame_path(frame@, root_frame@, name_views(map_frame@)),
{
    match lookup(map_frame, frame) {
        Some(path) => path,
        None => String::from_str("/").concat(root_frame).concat("/").concat(frame),
    }
}

/// The entity path that `topic_renames` gives a topic, if it gives one.
pub fn map_topic_to_path(topic: &str, topic_renames: &Vec<String>) -> (path: Option<String>)
    ensures
        match path {
            Some(p) => mapped(name_views(topic_renames@), topic@) == Some(p@),
            None => mapped(name_views(topic_renames@), topic@) is None,
        },
{
    lookup(topic_renames, topic)
}

/// `topic` with a slash in front, where it did not start with one.
pub open spec fn with_leading_slash(topic: Seq<char>) -> Seq<char> {
    if topic.len() > 0 && topic[0] == '/' {
        topic
    } else {
        "/"@ + topic
    }
}

/// `topic` without the slashes that it starts with.
pub open spec fn without_leading_slashes(topic: Seq<char>) -> Seq<char>
    decreases topic.len(),
{
    if topic.len() > 0 && topic[0] == '/' {
        without_leading_slashes(topic.drop_first())
    } else {
        topic
    }
}

/// The entity path of a topic, which starts with a slash.
pub fn normalize_path(topic: &str) -> (path: String)
    ensures
        path@ == with_leading_slash(topic@),
{
    if !topic.is_empty() && topic.get_char(0) == '/' {
        topic.to_owned()
    } else {
        String::from_str("/").concat(topic)
    }
}

/// The entity path of a topic, without any slash in front.
pub fn strip_leading_slashes(topic: &str) -> (path: String)
    ensures
        path@ == without_leading_slashes(topic@),
{
    let n = topic.unicode_len();
    let mut i: usize = 0;
    assert(topic@.skip(0) =~= topic@);
    while i < n && topic.get_char(i) == '/'
        invariant
            i <= n,
            n == topic@.len(),
            without_leading_slashes(topic@) == without_leading_slashes(topic@.skip(i as int)),
        decreases n - i,
    {
        assert(topic@.skip(i as int).drop_first() =~= topic@.skip(i + 1));
        assert(topic@.skip(i as int)[0] == topic@[i as int]);
        i = i + 1;
    }
    proof {
        if i < n {
            assert(topic@.skip(i as int)[0] == topic@[i as int]);
        }
        assert(topic@.skip(i as int) =~= topic@.subrange(i as int, n as int));
    }
    topic.substring_char(i, n).to_owned()
}

} // verus!
