//! Structured scrubbing: every string leaf of a JSON document is anonymized in
//! place. Numbers, booleans, `null` and object keys are left untouched (keys
//! carry no PII in the schemas this is used on, and numeric provenance such as
//! `source_line` must be preserved).
//!
//! The walk is key-aware: string values under version/release keys (such as
//! `agentVersion: "2.14.0.1"`) are left untouched, because dotted version
//! numbers otherwise look like IPv4 addresses. Array elements inherit the key
//! of the array, and a key that lists versions (`versions`) counts as a
//! version key, so `versions: ["1.2.3.4"]` is skipped like a scalar version.
//! Members and elements are visited in document order, which decides the
//! order in which tokens are assigned.

use vstd::prelude::*;
use vstd::string::*;
use vstd::utf8::encode_utf8;
use crate::bytes::{ascii_lower_seq, ascii_lowercase_bytes, bytes_end_with, bytes_eq, ends_with_bytes};
use crate::config::Config;
use crate::correlation::lemma_scrub_json_grows;
use crate::engine::{scrub_spec, Anonymizer};
use crate::store::StoreView;

verus! {

/// A JSON document. A number is held as its JSON text, so that it comes back
/// exactly as it was read.
#[derive(Debug)]
pub enum JsonValue {
    Null,
    Bool(bool),
    Number(String),
    String(String),
    Array(Vec<JsonValue>),
    Object(Vec<(String, JsonValue)>),
}

/// The mathematical content of a [`JsonValue`].
pub enum JsonView {
    Null,
    Bool(bool),
    Number(Seq<char>),
    Str(Seq<char>),
    Array(Seq<JsonView>),
    Object(Seq<(Seq<char>, JsonView)>),
}

/// The content of a JSON value.
pub open spec fn json_view(v: JsonValue) -> JsonView
    decreases v,
{
    match v {
        JsonValue::Null => JsonView::Null,
        JsonValue::Bool(b) => JsonView::Bool(b),
        JsonValue::Number(n) => JsonView::Number(n@),
        JsonValue::String(s) => JsonView::Str(s@),
        JsonValue::Array(items) => JsonView::Array(items_view(items@)),
        JsonValue::Object(members) => JsonView::Object(members_view(members@)),
    }
}

/// The content of each element.
pub open spec fn items_view(items: Seq<JsonValue>) -> Seq<JsonView>
    decreases items,
{
    if items.len() == 0 {
        Seq::empty()
    } else {
        items_view(items.drop_last()).push(json_view(items.last()))
    }
}

/// The content of each member: its key and its value.
pub open spec fn members_view(members: Seq<(String, JsonValue)>) -> Seq<(Seq<char>, JsonView)>
    decreases members,
{
    if members.len() == 0 {
        Seq::empty()
    } else {
        members_view(members.drop_last()).push((members.last().0@, json_view(members.last().1)))
    }
}

impl View for JsonValue {
    type V = JsonView;

    open spec fn view(&self) -> JsonView {
        json_view(*self)
    }
}

/// Suffix marking a version key (compared ignoring ASCII case).
pub const VERSION_KEY: &'static str = "version";

/// Suffix marking a versioned component key.
pub const UNDERSCORE_VERSION_KEY: &'static str = "_version";

/// Suffix marking a release key (compared ignoring ASCII case).
pub const RELEASE_KEY: &'static str = "release";

/// Suffix marking a key that lists versions, such as `versions` (compared
/// ignoring ASCII case); its elements inherit the key and are skipped.
pub const VERSIONS_KEY: &'static str = "versions";

/// Keys whose values are version or release identifiers (not PII, and prone
/// to being taken for IPv4 addresses): those ending, ignoring ASCII case, in
/// `version` or `release`, or in `versions`, a key that lists versions. So
/// `agentVersion`, `kernelVersion`, `osRelease` and `versions` are covered,
/// while `conversionHost` is not.
pub open spec fn skip_key(k: Seq<char>) -> bool {
    let kl = ascii_lower_seq(encode_utf8(k));
    ||| ends_with_bytes(kl, VERSION_KEY.spec_bytes())
    ||| ends_with_bytes(kl, RELEASE_KEY.spec_bytes())
    ||| ends_with_bytes(kl, VERSIONS_KEY.spec_bytes())
}

/// `b` has the shape of `a`: the same `null`s, booleans and numbers, the
/// same arrays (element by element) and objects (same keys, in the same
/// order, values of the same shape); strings may differ.
pub open spec fn same_shape(a: JsonView, b: JsonView) -> bool
    decreases a,
{
    match (a, b) {
        (JsonView::Str(_), JsonView::Str(_)) => true,
        (JsonView::Array(xs), JsonView::Array(ys)) => same_shape_items(xs, ys),
        (JsonView::Object(xs), JsonView::Object(ys)) => same_shape_members(xs, ys),
        (JsonView::Null, JsonView::Null) => true,
        (JsonView::Bool(x), JsonView::Bool(y)) => x == y,
        (JsonView::Number(x), JsonView::Number(y)) => x == y,
        _ => false,
    }
}

/// Element by element, the same shape.
pub open spec fn same_shape_items(xs: Seq<JsonView>, ys: Seq<JsonView>) -> bool
    decreases xs,
{
    &&& xs.len() == ys.len()
    &&& xs.len() > 0 ==> same_shape_items(xs.drop_last(), ys.drop_last()) && same_shape(
        xs.last(),
        ys.last(),
    )
}

/// Member by member, the same key and a value of the same shape.
pub open spec fn same_shape_members(xs: Seq<(Seq<char>, JsonView)>, ys: Seq<(Seq<char>, JsonView)>) -> bool
    decreases xs,
{
    &&& xs.len() == ys.len()
    &&& xs.len() > 0 ==> same_shape_members(xs.drop_last(), ys.drop_last()) && xs.last().0
        == ys.last().0 && same_shape(xs.last().1, ys.last().1)
}

/// Law: scrubbing a JSON value keeps its shape: only string leaves change;
/// numbers, booleans, `null`, keys and the layout of arrays and objects are
/// kept.
pub proof fn lemma_scrub_json_keeps_shape(
    cfg: Config,
    known: Seq<Seq<char>>,
    st: StoreView,
    key: Option<Seq<char>>,
    v: JsonView,
)
    ensures
        same_shape(v, scrub_json_value(cfg, known, st, key, v).1),
    decreases v,
{
    match v {
        JsonView::Array(items) => lemma_scrub_json_items_keep_shape(cfg, known, st, key, items),
        JsonView::Object(members) => lemma_scrub_json_members_keep_shape(cfg, known, st, members),
        _ => {},
    }
}

proof fn lemma_scrub_json_items_keep_shape(
    cfg: Config,
    known: Seq<Seq<char>>,
    st: StoreView,
    key: Option<Seq<char>>,
    items: Seq<JsonView>,
)
    ensures
        same_shape_items(items, scrub_json_items(cfg, known, st, key, items).1),
    decreases items,
{
    if items.len() > 0 {
        lemma_scrub_json_items_keep_shape(cfg, known, st, key, items.drop_last());
        let s1 = scrub_json_items(cfg, known, st, key, items.drop_last()).0;
        lemma_scrub_json_keeps_shape(cfg, known, s1, key, items.last());
        let out = scrub_json_items(cfg, known, st, key, items).1;
        assert(out.drop_last() =~= scrub_json_items(cfg, known, st, key, items.drop_last()).1);
    }
}

proof fn lemma_scrub_json_members_keep_shape(
    cfg: Config,
    known: Seq<Seq<char>>,
    st: StoreView,
    members: Seq<(Seq<char>, JsonView)>,
)
    ensures
        same_shape_members(members, scrub_json_members(cfg, known, st, members).1),
    decreases members,
{
    if members.len() > 0 {
        lemma_scrub_json_members_keep_shape(cfg, known, st, members.drop_last());
        let s1 = scrub_json_members(cfg, known, st, members.drop_last()).0;
        let (k, v) = members.last();
        lemma_scrub_json_keeps_shape(cfg, known, s1, Some(k), v);
        let out = scrub_json_members(cfg, known, st, members).1;
        assert(out.drop_last() =~= scrub_json_members(cfg, known, st, members.drop_last()).1);
    }
}

/// Whether string values under `key` are left untouched.
pub open spec fn skipped_under(key: Option<Seq<char>>) -> bool {
    match key {
        Some(k) => skip_key(k),
        None => false,
    }
}

/// `v`, found under `key`, with its string leaves scrubbed in document order:
/// the store afterwards and the scrubbed value.
pub open spec fn scrub_json_value(
    cfg: Config,
    known: Seq<Seq<char>>,
    st: StoreView,
    key: Option<Seq<char>>,
    v: JsonView,
) -> (StoreView, JsonView)
    decreases v,
{
    match v {
        JsonView::Str(s) => if skipped_under(key) {
            (st, v)
        } else {
            let (st2, out) = scrub_spec(cfg, st, known, s);
            (st2, JsonView::Str(out))
        },
        JsonView::Array(items) => {
            let (st2, out) = scrub_json_items(cfg, known, st, key, items);
            (st2, JsonView::Array(out))
        },
        JsonView::Object(members) => {
            let (st2, out) = scrub_json_members(cfg, known, st, members);
            (st2, JsonView::Object(out))
        },
        _ => (st, v),
    }
}

/// The elements of an array found under `key`, scrubbed one after the other.
pub open spec fn scrub_json_items(
    cfg: Config,
    known: Seq<Seq<char>>,
    st: StoreView,
    key: Option<Seq<char>>,
    items: Seq<JsonView>,
) -> (StoreView, Seq<JsonView>)
    decreases items,
{
    if items.len() == 0 {
        (st, Seq::empty())
    } else {
        let (st1, out) = scrub_json_items(cfg, known, st, key, items.drop_last());
        let (st2, x) = scrub_json_value(cfg, known, st1, key, items.last());
        (st2, out.push(x))
    }
}

/// The members of an object, each value scrubbed under its own key, one after
/// the other; keys are kept.
pub open spec fn scrub_json_members(
    cfg: Config,
    known: Seq<Seq<char>>,
    st: StoreView,
    members: Seq<(Seq<char>, JsonView)>,
) -> (StoreView, Seq<(Seq<char>, JsonView)>)
    decreases members,
{
    if members.len() == 0 {
        (st, Seq::empty())
    } else {
        let (st1, out) = scrub_json_members(cfg, known, st, members.drop_last());
        let (k, v) = members.last();
        let (st2, x) = scrub_json_value(cfg, known, st1, Some(k), v);
        (st2, out.push((k, x)))
    }
}

/// Whether `k` is a version/release key.
pub fn is_skip_key(k: &str) -> (r: bool)
    ensures
        r == skip_key(k@),
{
    let kb = k.as_bytes();
    let kl = ascii_lowercase_bytes(kb, 0, kb.len());
    assert(kb@.subrange(0, kb@.len() as int) =~= kb@);
    let v = VERSION_KEY.as_bytes();
    let uv = UNDERSCORE_VERSION_KEY.as_bytes();
    let rl = RELEASE_KEY.as_bytes();
    let n = kl.len();
    let r = bytes_eq(kl.as_slice(), 0, n, v) || bytes_end_with(kl.as_slice(), v) || bytes_end_with(
        kl.as_slice(),
        uv,
    ) || bytes_eq(kl.as_slice(), 0, n, rl) || bytes_end_with(kl.as_slice(), rl) || bytes_end_with(
        kl.as_slice(),
        VERSIONS_KEY.as_bytes(),
    );
    proof {
        let s = kl@;
        assert(s.subrange(0, s.len() as int) =~= s);
        reveal_strlit("version");
        reveal_strlit("_version");
        is_ascii_spec_bytes(VERSION_KEY);
        is_ascii_spec_bytes(UNDERSCORE_VERSION_KEY);
        assert(uv@.len() == 8);
        assert(uv@.subrange(1, 8) =~= v@);
        if ends_with_bytes(s, uv@) {
            assert(s.subrange(s.len() - 7, s.len() as int) =~= s.subrange(
                s.len() - 8,
                s.len() as int,
            ).subrange(1, 8));
        }
    }
    r
}

impl Anonymizer {
    /// Scrubs `value`, found under `key`, in place.
    fn scrub_json_with_key(&mut self, key: Option<&str>, value: &mut JsonValue)
        requires
            old(self).wf(),
        ensures
            final(self).wf(),
            final(self).config() == old(self).config(),
            final(self).known_hosts() == old(self).known_hosts(),
            (final(self).store_view(), final(value)@) == scrub_json_value(
                old(self).config(),
                old(self).known_hosts(),
                old(self).store_view(),
                match key {
                    Some(k) => Some(k@),
                    None => None,
                },
                old(value)@,
            ),
        decreases *old(value),
    {
        match value {
            JsonValue::String(s) => {
                let skip = match key {
                    Some(k) => is_skip_key(k),
                    None => false,
                };
                if skip {
                    return;
                }
                let cleaned = self.scrub_text(s.as_str());
                *s = cleaned;
            },
            JsonValue::Array(items) => {
                self.scrub_json_items_with_key(key, items);
            },
            JsonValue::Object(members) => {
                self.scrub_json_members_in_place(members);
            },
            _ => {},
        }
    }

    /// Scrubs the elements of an array found under `key`, in order.
    fn scrub_json_items_with_key(&mut self, key: Option<&str>, items: &mut Vec<JsonValue>)
        requires
            old(self).wf(),
        ensures
            final(self).wf(),
            final(self).config() == old(self).config(),
            final(self).known_hosts() == old(self).known_hosts(),
            (final(self).store_view(), items_view(final(items)@)) == scrub_json_items(
                old(self).config(),
                old(self).known_hosts(),
                old(self).store_view(),
                match key {
                    Some(k) => Some(k@),
                    None => None,
                },
                items_view(old(items)@),
            ),
        decreases old(items)@,
    {
        let ghost kv = match key {
            Some(k) => Some(k@),
            None => None,
        };
        let ghost cfg = self.config();
        let ghost known = self.known_hosts();
        let ghost st0 = self.store_view();
        let ghost orig = items@;
        let n = items.len();
        let mut i: usize = 0;
        while i < n
            invariant
                self.wf(),
                self.config() == cfg,
                self.known_hosts() == known,
                orig == old(items)@,
                kv == match key {
                    Some(k) => Some(k@),
                    None => None,
                },
                n == orig.len(),
                items@.len() == n,
                i <= n,
                forall|j: int| i <= j < n ==> items@[j] == orig[j],
                (self.store_view(), items_view(items@.take(i as int))) == scrub_json_items(
                    cfg,
                    known,
                    st0,
                    kv,
                    items_view(orig.take(i as int)),
                ),
            decreases n - i,
        {
            let ghost before = items@;
            proof {
                assert(orig.take(i + 1).drop_last() =~= orig.take(i as int));
                assert(orig.take(i + 1).last() == orig[i as int]);
                let pre = items_view(orig.take(i as int));
                assert(items_view(orig.take(i + 1)) == pre.push(json_view(orig[i as int])));
                assert(pre.push(json_view(orig[i as int])).drop_last() =~= pre);
                assert(items@[i as int] == orig[i as int]);
                assert(decreases_to!(orig => orig[i as int]));
            }
            let elem = &mut items[i];
            assert(decreases_to!(orig => *elem));
            self.scrub_json_with_key(key, elem);
            proof {
                assert(items@.take(i as int) =~= before.take(i as int));
                assert(items@.take(i + 1).drop_last() =~= items@.take(i as int));
                assert(items@.take(i + 1).last() == items@[i as int]);
            }
            i = i + 1;
        }
        assert(items@.take(n as int) =~= items@);
        assert(orig.take(n as int) =~= orig);
    }

    /// Scrubs the members of an object in order, each under its own key.
    fn scrub_json_members_in_place(&mut self, members: &mut Vec<(String, JsonValue)>)
        requires
            old(self).wf(),
        ensures
            final(self).wf(),
            final(self).config() == old(self).config(),
            final(self).known_hosts() == old(self).known_hosts(),
            (final(self).store_view(), members_view(final(members)@)) == scrub_json_members(
                old(self).config(),
                old(self).known_hosts(),
                old(self).store_view(),
                members_view(old(members)@),
            ),
        decreases old(members)@,
    {
        let ghost cfg = self.config();
        let ghost known = self.known_hosts();
        let ghost st0 = self.store_view();
        let ghost orig = members@;
        let n = members.len();
        let mut i: usize = 0;
        while i < n
            invariant
                self.wf(),
                self.config() == cfg,
                self.known_hosts() == known,
                orig == old(members)@,
                n == orig.len(),
                members@.len() == n,
                i <= n,
                forall|j: int| i <= j < n ==> members@[j] == orig[j],
                (self.store_view(), members_view(members@.take(i as int))) == scrub_json_members(
                    cfg,
                    known,
                    st0,
                    members_view(orig.take(i as int)),
                ),
            decreases n - i,
        {
            let ghost before = members@;
            proof {
                assert(orig.take(i + 1).drop_last() =~= orig.take(i as int));
                assert(orig.take(i + 1).last() == orig[i as int]);
                let pre = members_view(orig.take(i as int));
                let e = (orig[i as int].0@, json_view(orig[i as int].1));
                assert(members_view(orig.take(i + 1)) == pre.push(e));
                assert(pre.push(e).drop_last() =~= pre);
                assert(members@[i as int] == orig[i as int]);
                assert(decreases_to!(orig => orig[i as int]));
                assert(decreases_to!(orig[i as int] => orig[i as int].1));
            }
            let k = members[i].0.clone();
            let member = &mut members[i];
            assert(decreases_to!(orig => member.1));
            self.scrub_json_with_key(Some(k.as_str()), &mut member.1);
            proof {
                assert(members@.take(i as int) =~= before.take(i as int));
                assert(members@.take(i + 1).drop_last() =~= members@.take(i as int));
                assert(members@.take(i + 1).last() == members@[i as int]);
            }
            i = i + 1;
        }
        assert(members@.take(n as int) =~= members@);
        assert(orig.take(n as int) =~= orig);
    }

    /// Recursively anonymizes every string leaf of a JSON value in place.
    pub fn scrub_json(&mut self, value: &mut JsonValue)
        requires
            old(self).wf(),
        ensures
            final(self).wf(),
            final(self).config() == old(self).config(),
            final(self).known_hosts() == old(self).known_hosts(),
            (final(self).store_view(), final(value)@) == scrub_json_value(
                old(self).config(),
                old(self).known_hosts(),
                old(self).store_view(),
                None,
                old(value)@,
            ),
            final(self).store_view().grows_from(old(self).store_view()),
    {
        proof {
            self.lemma_wf_parts();
            lemma_scrub_json_grows(self.config(), self.known_hosts(), self.store_view(), value@);
        }
        self.scrub_json_with_key(None, value);
    }
}

} // verus!
