use vstd::prelude::*;

use crate::date::spec_date_chars;
use crate::date::spec_parse_date;
use crate::date::Date;
use crate::json::enc_text;
use crate::json::jviews;
use crate::json::jviews_obj;
use crate::json::parse_json;
use crate::json::push_json_string;
use crate::json::sp_json;
use crate::json::JVal;
use crate::json::Json;
use crate::standup::Standup;
use crate::standup::StandupModel;
use crate::text::chars_to_string;
use crate::text::to_chars;

verus! {

/// Why a text failed to decode: it is not JSON at all, or its top level is
/// not an array of objects.
#[derive(Clone, Copy, Debug, PartialEq, Eq, Structural)]
pub enum DecodeError {
    InvalidJson,
    NotAnArrayOfObjects,
}

// ---------------------------------------------------------------------------
// What decoding means.
// ---------------------------------------------------------------------------
/// The value stored under `key`, the last occurrence winning.
pub open spec fn obj_get(members: Seq<(Seq<char>, JVal)>, key: Seq<char>) -> Option<JVal>
    decreases members.len(),
{
    if members.len() == 0 {
        None
    } else if members.last().0 == key {
        Some(members.last().1)
    } else {
        obj_get(members.drop_last(), key)
    }
}

/// The strings among the elements of an array, in order; everything else is
/// dropped.
pub open spec fn texts_of(arr: Seq<JVal>) -> Seq<Seq<char>>
    decreases arr.len(),
{
    if arr.len() == 0 {
        Seq::empty()
    } else {
        match arr[0] {
            JVal::Text(t) => seq![t] + texts_of(arr.drop_first()),
            _ => texts_of(arr.drop_first()),
        }
    }
}

/// The message list an object stores under `key`: absent keys and non-array
/// values count as empty.
pub open spec fn list_of(members: Seq<(Seq<char>, JVal)>, key: Seq<char>) -> Seq<Seq<char>> {
    match obj_get(members, key) {
        Some(JVal::Arr(a)) => texts_of(a),
        _ => Seq::empty(),
    }
}

/// The date an object stores: a string value under "date" that parses as
/// `YYYY-MM-DD`; anything else falls back to `default`.
pub open spec fn date_of(members: Seq<(Seq<char>, JVal)>, default: Date) -> Date {
    match obj_get(members, "date"@) {
        Some(JVal::Text(t)) => match spec_parse_date(t) {
            Some(d) => d,
            None => default,
        },
        _ => default,
    }
}

/// The record one decoded object stands for.
pub open spec fn entry_of(members: Seq<(Seq<char>, JVal)>, default: Date) -> StandupModel {
    StandupModel {
        date: date_of(members, default),
        today: list_of(members, "today"@),
        yesterday: list_of(members, "yesterday"@),
        blocker: list_of(members, "blocker"@),
    }
}

/// Whether a text decodes, and with which error it fails: it must be JSON
/// whose top level is an array of objects.
pub open spec fn spec_decode_status(s: Seq<char>) -> Result<(), DecodeError> {
    match sp_json(s) {
        None => Err(DecodeError::InvalidJson),
        Some(v) => match v {
            JVal::Arr(items) => {
                if forall|i: int| 0 <= i < items.len() ==> (#[trigger] items[i]) is Obj {
                    Ok(())
                } else {
                    Err(DecodeError::NotAnArrayOfObjects)
                }
            },
            _ => Err(DecodeError::NotAnArrayOfObjects),
        },
    }
}

/// What a text decodes to: one record per object, in order, with `default`
/// standing in for missing or unreadable dates.
pub open spec fn spec_decode(s: Seq<char>, default: Date) -> Result<
    Seq<StandupModel>,
    DecodeError,
> {
    match spec_decode_status(s) {
        Err(e) => Err(e),
        Ok(()) => {
            let items = sp_json(s)->Some_0->Arr_0;
            Ok(
                Seq::new(
                    items.len(),
                    |i: int|
                        if 0 <= i < items.len() {
                            entry_of(items[i]->Obj_0, default)
                        } else {
                            StandupModel::empty(default)
                        },
                ),
            )
        },
    }
}

// ---------------------------------------------------------------------------
// What encoding means.
// ---------------------------------------------------------------------------
/// The second and later elements of an encoded string array, each preceded
/// by a comma.
pub open spec fn enc_texts_rest(msgs: Seq<Seq<char>>) -> Seq<char>
    decreases msgs.len(),
{
    if msgs.len() == 0 {
        Seq::empty()
    } else {
        seq![','] + enc_text(msgs[0]) + enc_texts_rest(msgs.drop_first())
    }
}

/// The elements of an encoded string array, between the brackets.
pub open spec fn enc_texts_body(msgs: Seq<Seq<char>>) -> Seq<char> {
    if msgs.len() == 0 {
        Seq::empty()
    } else {
        enc_text(msgs[0]) + enc_texts_rest(msgs.drop_first())
    }
}

/// A JSON array of string literals.
pub open spec fn enc_texts_list(msgs: Seq<Seq<char>>) -> Seq<char> {
    seq!['['] + enc_texts_body(msgs) + seq![']']
}

/// One encoded object member: its quoted key, a colon, its encoded value,
/// the delimiter after it, and whatever follows.
pub open spec fn enc_member(key: Seq<char>, val: Seq<char>, delim: char, rest: Seq<char>) -> Seq<
    char,
> {
    enc_text(key) + (seq![':'] + (val + (seq![delim] + rest)))
}

/// One record as a JSON object with the four fixed keys in order, no
/// whitespace.
pub open spec fn enc_entry(m: StandupModel) -> Seq<char> {
    seq!['{'] + enc_member(
        "date"@,
        enc_text(spec_date_chars(m.date)),
        ',',
        enc_member(
            "today"@,
            enc_texts_list(m.today),
            ',',
            enc_member(
                "yesterday"@,
                enc_texts_list(m.yesterday),
                ',',
                enc_member("blocker"@, enc_texts_list(m.blocker), '}', Seq::empty()),
            ),
        ),
    )
}

/// The second and later records of an encoded store, each preceded by a
/// comma.
pub open spec fn enc_entries_rest(ms: Seq<StandupModel>) -> Seq<char>
    decreases ms.len(),
{
    if ms.len() == 0 {
        Seq::empty()
    } else {
        seq![','] + enc_entry(ms[0]) + enc_entries_rest(ms.drop_first())
    }
}

/// The records of an encoded store, between the brackets.
pub open spec fn enc_doc_body(ms: Seq<StandupModel>) -> Seq<char> {
    if ms.len() == 0 {
        Seq::empty()
    } else {
        enc_entry(ms[0]) + enc_entries_rest(ms.drop_first())
    }
}

/// A whole store as a JSON array of record objects.
pub open spec fn enc_doc(ms: Seq<StandupModel>) -> Seq<char> {
    seq!['['] + enc_doc_body(ms) + seq![']']
}

// ---------------------------------------------------------------------------
// The executable encoder.
// ---------------------------------------------------------------------------
proof fn lemma_texts_rest_push(msgs: Seq<Seq<char>>, last: Seq<char>)
    ensures
        enc_texts_rest(msgs.push(last)) == enc_texts_rest(msgs) + seq![','] + enc_text(last),
    decreases msgs.len(),
{
    if msgs.len() == 0 {
        assert(msgs.push(last).drop_first() =~= Seq::<Seq<char>>::empty());
        assert(msgs.push(last)[0] == last);
        assert(enc_texts_rest(msgs.push(last).drop_first()) == Seq::<char>::empty());
        assert(enc_texts_rest(msgs.push(last)) =~= enc_texts_rest(msgs) + seq![','] + enc_text(
            last,
        ));
    } else {
        assert(msgs.push(last).drop_first() =~= msgs.drop_first().push(last));
        lemma_texts_rest_push(msgs.drop_first(), last);
        assert(msgs.push(last)[0] == msgs[0]);
        assert(enc_texts_rest(msgs.push(last)) =~= enc_texts_rest(msgs) + seq![','] + enc_text(
            last,
        ));
    }
}

proof fn lemma_texts_body_push(msgs: Seq<Seq<char>>, last: Seq<char>)
    ensures
        msgs.len() == 0 ==> enc_texts_body(msgs.push(last)) == enc_text(last),
        msgs.len() > 0 ==> enc_texts_body(msgs.push(last)) == enc_texts_body(msgs) + seq![',']
            + enc_text(last),
{
    if msgs.len() == 0 {
        assert(msgs.push(last)[0] == last);
        assert(msgs.push(last).drop_first() =~= Seq::<Seq<char>>::empty());
        assert(enc_texts_rest(msgs.push(last).drop_first()) == Seq::<char>::empty());
        assert(enc_texts_body(msgs.push(last)) =~= enc_text(last));
    } else {
        assert(msgs.push(last)[0] == msgs[0]);
        assert(msgs.push(last).drop_first() =~= msgs.drop_first().push(last));
        lemma_texts_rest_push(msgs.drop_first(), last);
        assert(enc_texts_body(msgs.push(last)) =~= enc_texts_body(msgs) + seq![','] + enc_text(
            last,
        ));
    }
}

/// Appends the JSON array of string literals for `msgs`.
fn push_text_list(out: &mut Vec<char>, msgs: &Vec<String>)
    ensures
        final(out)@ == old(out)@ + enc_texts_list(msgs.deep_view()),
{
    let n = msgs.len();
    out.push('[');
    let mut i: usize = 0;
    while i < n
        invariant
            i <= n,
            n == msgs.len(),
            out@ == old(out)@ + seq!['['] + enc_texts_body(msgs.deep_view().take(i as int)),
        decreases n - i,
    {
        let ghost prefix = msgs.deep_view().take(i as int);
        if i > 0 {
            out.push(',');
        }
        push_json_string(out, msgs[i].as_str());
        proof {
            lemma_texts_body_push(prefix, msgs.deep_view()[i as int]);
            assert(msgs.deep_view().take(i + 1) =~= prefix.push(msgs.deep_view()[i as int]));
            assert(out@ =~= old(out)@ + seq!['['] + enc_texts_body(msgs.deep_view().take(i + 1)));
        }
        i = i + 1;
    }
    out.push(']');
    proof {
        assert(msgs.deep_view().take(n as int) =~= msgs.deep_view());
        assert(out@ =~= old(out)@ + enc_texts_list(msgs.deep_view()));
    }
}

/// Text whose characters all escape to themselves is written unchanged.
proof fn lemma_esc_str_plain(s: Seq<char>)
    requires
        forall|k: int|
            0 <= k < s.len() ==> crate::json::esc_char(#[trigger] s[k]) == seq![s[k]],
    ensures
        crate::json::esc_str(s) == s,
    decreases s.len(),
{
    if s.len() > 0 {
        assert forall|k: int|
            0 <= k < s.drop_first().len() implies crate::json::esc_char(
            #[trigger] s.drop_first()[k],
        ) == seq![s.drop_first()[k]] by {
            assert(s.drop_first()[k] == s[k + 1]);
        }
        lemma_esc_str_plain(s.drop_first());
        assert(crate::json::esc_str(s) =~= s);
    }
}

/// A date's ten characters are digits and hyphens, which need no escaping.
proof fn lemma_esc_date(d: Date)
    requires
        d.wf(),
    ensures
        crate::json::esc_str(spec_date_chars(d)) == spec_date_chars(d),
{
    let s = spec_date_chars(d);
    assert forall|k: int| 0 <= k < s.len() implies crate::json::esc_char(#[trigger] s[k])
        == seq![s[k]] by {
        let c = s[k];
        if k == 4 || k == 7 {
            assert(c == '-');
        } else {
            if k == 0 {
                crate::text::lemma_digit_char_val(d.year as int / 1000);
            } else if k == 1 {
                crate::text::lemma_digit_char_val((d.year as int / 100) % 10);
            } else if k == 2 {
                crate::text::lemma_digit_char_val((d.year as int / 10) % 10);
            } else if k == 3 {
                crate::text::lemma_digit_char_val(d.year as int % 10);
            } else if k == 5 {
                crate::text::lemma_digit_char_val(d.month as int / 10);
            } else if k == 6 {
                crate::text::lemma_digit_char_val(d.month as int % 10);
            } else if k == 8 {
                crate::text::lemma_digit_char_val(d.day as int / 10);
            } else {
                crate::text::lemma_digit_char_val(d.day as int % 10);
            }
            assert(crate::text::spec_is_digit(c));
        }
    }
    lemma_esc_str_plain(s);
}

/// Appends the JSON object for one record.
#[verifier::rlimit(100)]
#[verifier::spinoff_prover]
fn push_entry(out: &mut Vec<char>, e: &Standup)
    requires
        e.wf(),
    ensures
        final(out)@ == old(out)@ + enc_entry(e@),
{
    out.push('{');
    push_json_string(out, "date");
    out.push(':');
    out.push('"');
    e.date.push_chars(out);
    out.push('"');
    proof {
        lemma_esc_date(e.date);
        assert(out@ =~= old(out)@ + seq!['{'] + enc_text("date"@) + seq![':'] + enc_text(
            spec_date_chars(e.date),
        ));
    }
    out.push(',');
    push_json_string(out, "today");
    out.push(':');
    push_text_list(out, &e.today);
    out.push(',');
    push_json_string(out, "yesterday");
    out.push(':');
    push_text_list(out, &e.yesterday);
    out.push(',');
    push_json_string(out, "blocker");
    out.push(':');
    push_text_list(out, &e.blocker);
    out.push('}');
    assert(out@ =~= old(out)@ + enc_entry(e@));
}

proof fn lemma_entries_rest_push(ms: Seq<StandupModel>, last: StandupModel)
    ensures
        enc_entries_rest(ms.push(last)) == enc_entries_rest(ms) + seq![','] + enc_entry(last),
    decreases ms.len(),
{
    if ms.len() == 0 {
        assert(ms.push(last).drop_first() =~= Seq::<StandupModel>::empty());
        assert(ms.push(last)[0] == last);
        assert(enc_entries_rest(ms.push(last).drop_first()) == Seq::<char>::empty());
        assert(enc_entries_rest(ms.push(last)) =~= enc_entries_rest(ms) + seq![','] + enc_entry(
            last,
        ));
    } else {
        assert(ms.push(last).drop_first() =~= ms.drop_first().push(last));
        lemma_entries_rest_push(ms.drop_first(), last);
        assert(ms.push(last)[0] == ms[0]);
        assert(enc_entries_rest(ms.push(last)) =~= enc_entries_rest(ms) + seq![','] + enc_entry(
            last,
        ));
    }
}

proof fn lemma_doc_body_push(ms: Seq<StandupModel>, last: StandupModel)
    ensures
        ms.len() == 0 ==> enc_doc_body(ms.push(last)) == enc_entry(last),
        ms.len() > 0 ==> enc_doc_body(ms.push(last)) == enc_doc_body(ms) + seq![','] + enc_entry(
            last,
        ),
{
    if ms.len() == 0 {
        assert(ms.push(last)[0] == last);
        assert(ms.push(last).drop_first() =~= Seq::<StandupModel>::empty());
        assert(enc_entries_rest(ms.push(last).drop_first()) == Seq::<char>::empty());
        assert(enc_doc_body(ms.push(last)) =~= enc_entry(last));
    } else {
        assert(ms.push(last)[0] == ms[0]);
        assert(ms.push(last).drop_first() =~= ms.drop_first().push(last));
        lemma_entries_rest_push(ms.drop_first(), last);
        assert(enc_doc_body(ms.push(last)) =~= enc_doc_body(ms) + seq![','] + enc_entry(last));
    }
}

/// Encodes records as the JSON array the journal file holds: one object per
/// record, in the given order.
pub fn serialize(standups: &Vec<Standup>) -> (r: String)
    requires
        forall|i: int| 0 <= i < standups@.len() ==> (#[trigger] standups@[i]).wf(),
    ensures
        r@ == enc_doc(standups.deep_view()),
{
    let n = standups.len();
    let mut out: Vec<char> = Vec::new();
    out.push('[');
    let mut i: usize = 0;
    while i < n
        invariant
            i <= n,
            n == standups.len(),
            forall|k: int| 0 <= k < standups@.len() ==> (#[trigger] standups@[k]).wf(),
            out@ == seq!['['] + enc_doc_body(standups.deep_view().take(i as int)),
        decreases n - i,
    {
        let ghost prefix = standups.deep_view().take(i as int);
        if i > 0 {
            out.push(',');
        }
        push_entry(&mut out, &standups[i]);
        proof {
            assert(standups.deep_view()[i as int] == standups@[i as int]@);
            lemma_doc_body_push(prefix, standups.deep_view()[i as int]);
            assert(standups.deep_view().take(i + 1) =~= prefix.push(
                standups.deep_view()[i as int],
            ));
            assert(out@ =~= seq!['['] + enc_doc_body(standups.deep_view().take(i + 1)));
        }
        i = i + 1;
    }
    out.push(']');
    proof {
        assert(standups.deep_view().take(n as int) =~= standups.deep_view());
        assert(out@ =~= enc_doc(standups.deep_view()));
    }
    chars_to_string(&out)
}

// ---------------------------------------------------------------------------
// The executable decoder.
// ---------------------------------------------------------------------------
fn chars_eq(a: &Vec<char>, b: &Vec<char>) -> (r: bool)
    ensures
        r == (a@ == b@),
{
    let n = a.len();
    if n != b.len() {
        return false;
    }
    let mut i: usize = 0;
    while i < n
        invariant
            i <= n,
            n == a.len() == b.len(),
            forall|k: int| 0 <= k < i ==> a@[k] == b@[k],
        decreases n - i,
    {
        if a[i] != b[i] {
            return false;
        }
        i = i + 1;
    }
    proof {
        assert(a@ =~= b@);
    }
    true
}

/// The member value stored under `key` among the first `n` members, the
/// last occurrence winning, as `obj_get` reads it.
fn obj_find<'a>(members: &'a Vec<(Vec<char>, Json)>, n: usize, key: &Vec<char>) -> (r: Option<
    &'a Json,
>)
    requires
        n <= members@.len(),
    ensures
        (r is Some) == (obj_get(jviews_obj(members@).take(n as int), key@) is Some),
        r matches Some(v) ==> obj_get(jviews_obj(members@).take(n as int), key@) == Some(v.jview()),
    decreases n,
{
    let ghost pre = jviews_obj(members@).take(n as int);
    if n == 0 {
        proof {
            assert(pre =~= Seq::<(Seq<char>, JVal)>::empty());
        }
        None
    } else {
        proof {
            assert(pre.last() == (members@[n - 1].0@, members@[n - 1].1.jview()));
            assert(pre.drop_last() =~= jviews_obj(members@).take(n - 1));
        }
        if chars_eq(&members[n - 1].0, key) {
            Some(&members[n - 1].1)
        } else {
            obj_find(members, n - 1, key)
        }
    }
}

proof fn lemma_texts_of_push(arr: Seq<JVal>, v: JVal)
    ensures
        texts_of(arr.push(v)) == texts_of(arr) + (match v {
            JVal::Text(t) => seq![t],
            _ => Seq::empty(),
        }),
    decreases arr.len(),
{
    let tail = (match v {
        JVal::Text(t) => seq![t],
        _ => Seq::<Seq<char>>::empty(),
    });
    if arr.len() == 0 {
        assert(arr.push(v)[0] == v);
        assert(arr.push(v).drop_first() =~= Seq::<JVal>::empty());
        assert(texts_of(arr.push(v).drop_first()) == Seq::<Seq<char>>::empty());
        assert(texts_of(arr.push(v)) =~= texts_of(arr) + tail);
    } else {
        assert(arr.push(v)[0] == arr[0]);
        assert(arr.push(v).drop_first() =~= arr.drop_first().push(v));
        lemma_texts_of_push(arr.drop_first(), v);
        assert(texts_of(arr.push(v)) =~= texts_of(arr) + tail);
    }
}

/// The strings among an array's elements, in order, as owned strings.
fn collect_texts(arr: &Vec<Json>) -> (r: Vec<String>)
    ensures
        r.deep_view() == texts_of(jviews(arr@)),
{
    let n = arr.len();
    let mut r: Vec<String> = Vec::new();
    let mut i: usize = 0;
    while i < n
        invariant
            i <= n,
            n == arr.len(),
            r.deep_view() =~= texts_of(jviews(arr@).take(i as int)),
        decreases n - i,
    {
        let ghost pre = jviews(arr@).take(i as int);
        proof {
            assert(jviews(arr@).take(i + 1) =~= pre.push(jviews(arr@)[i as int]));
            lemma_texts_of_push(pre, jviews(arr@)[i as int]);
        }
        match &arr[i] {
            Json::Text(t) => {
                let s = chars_to_string(t);
                r.push(s);
                assert(r.deep_view() =~= texts_of(jviews(arr@).take(i + 1)));
            },
            _ => {
                assert(r.deep_view() =~= texts_of(jviews(arr@).take(i + 1)));
            },
        }
        i = i + 1;
    }
    proof {
        assert(jviews(arr@).take(n as int) =~= jviews(arr@));
    }
    r
}

/// The message list an object stores under `key`.
fn get_list(members: &Vec<(Vec<char>, Json)>, key: &Vec<char>) -> (r: Vec<String>)
    ensures
        r.deep_view() == list_of(jviews_obj(members@), key@),
{
    let ghost full = jviews_obj(members@);
    proof {
        assert(full.take(members@.len() as int) =~= full);
    }
    match obj_find(members, members.len(), key) {
        Some(v) => match v {
            Json::Arr(elems) => collect_texts(elems),
            _ => {
                let r: Vec<String> = Vec::new();
                assert(r.deep_view() =~= list_of(full, key@));
                r
            },
        },
        None => {
            let r: Vec<String> = Vec::new();
            assert(r.deep_view() =~= list_of(full, key@));
            r
        },
    }
}

/// One decoded object as a record, with `default` standing in for a missing
/// or unreadable date.
fn build_standup(members: &Vec<(Vec<char>, Json)>, default: Date) -> (r: Standup)
    requires
        default.wf(),
    ensures
        r@ == entry_of(jviews_obj(members@), default),
        r.wf(),
{
    let ghost full = jviews_obj(members@);
    proof {
        assert(full.take(members@.len() as int) =~= full);
    }
    let date_key = to_chars("date");
    let date = match obj_find(members, members.len(), &date_key) {
        Some(v) => match v {
            Json::Text(t) => {
                let ts = chars_to_string(t);
                match Date::parse(ts.as_str()) {
                    Some(d) => d,
                    None => default,
                }
            },
            _ => default,
        },
        None => default,
    };
    let today_key = to_chars("today");
    let yesterday_key = to_chars("yesterday");
    let blocker_key = to_chars("blocker");
    let today = get_list(members, &today_key);
    let yesterday = get_list(members, &yesterday_key);
    let blocker = get_list(members, &blocker_key);
    let r = Standup { today, yesterday, blocker, date };
    proof {
        assert(r@.today == list_of(full, "today"@));
        assert(r@.yesterday == list_of(full, "yesterday"@));
        assert(r@.blocker == list_of(full, "blocker"@));
        assert(r.date == date_of(full, default));
    }
    r
}

/// Decodes the journal file format with an explicit stand-in date: the text
/// must be a JSON array of objects, and yields one record per object, in
/// order.
pub fn deserialize_with(json: &str, default: Date) -> (r: Result<Vec<Standup>, DecodeError>)
    requires
        default.wf(),
    ensures
        (r is Ok) == (spec_decode_status(json@) is Ok),
        r matches Err(e) ==> spec_decode_status(json@) == Err::<(), DecodeError>(e),
        r matches Ok(v) ==> Ok::<Seq<StandupModel>, DecodeError>(v.deep_view()) == spec_decode(json@, default),
        r matches Ok(v) ==> forall|i: int| 0 <= i < v@.len() ==> (#[trigger] v@[i]).wf(),
{
    let cs = to_chars(json);
    match parse_json(&cs) {
        None => Err(DecodeError::InvalidJson),
        Some(doc) => match doc {
            Json::Arr(items) => {
                let ghost models = jviews(items@);
                let n = items.len();
                let mut out: Vec<Standup> = Vec::new();
                let mut i: usize = 0;
                while i < n
                    invariant
                        i <= n,
                        n == items.len(),
                        default.wf(),
                        sp_json(json@) == Some(JVal::Arr(models)),
                        models == jviews(items@),
                        forall|k: int| 0 <= k < i ==> (#[trigger] models[k]) is Obj,
                        out@.len() == i,
                        forall|k: int|
                            0 <= k < i ==> (#[trigger] out@[k])@ == entry_of(
                                models[k]->Obj_0,
                                default,
                            ),
                        forall|k: int| 0 <= k < i ==> (#[trigger] out@[k]).wf(),
                    decreases n - i,
                {
                    match &items[i] {
                        Json::Obj(members) => {
                            proof {
                                assert(models[i as int] == items@[i as int].jview());
                            }
                            let s = build_standup(members, default);
                            out.push(s);
                        },
                        _ => {
                            proof {
                                assert(models[i as int] == items@[i as int].jview());
                                assert(!(models[i as int] is Obj));
                            }
                            return Err(DecodeError::NotAnArrayOfObjects);
                        },
                    }
                    i = i + 1;
                }
                proof {
                    assert(spec_decode_status(json@) is Ok);
                    let expected = spec_decode(json@, default)->Ok_0;
                    assert(out.deep_view() =~= expected);
                }
                Ok(out)
            },
            _ => {
                proof {
                    assert(!(doc.jview() matches JVal::Arr(_)));
                }
                Err(DecodeError::NotAnArrayOfObjects)
            },
        },
    }
}

// ---------------------------------------------------------------------------
// Round trip: decoding an encoded store yields the records unchanged.
// ---------------------------------------------------------------------------
/// Message lists appear in a decoded document as arrays of string values.
pub open spec fn texts_to_jvals(list: Seq<Seq<char>>) -> Seq<JVal> {
    Seq::new(list.len(), |k: int| JVal::Text(list[k]))
}

/// The members an encoded record parses to: its four keys in encoding
/// order.
pub open spec fn entry_members(m: StandupModel) -> Seq<(Seq<char>, JVal)> {
    seq![
        ("date"@, JVal::Text(spec_date_chars(m.date))),
        ("today"@, JVal::Arr(texts_to_jvals(m.today))),
        ("yesterday"@, JVal::Arr(texts_to_jvals(m.yesterday))),
        ("blocker"@, JVal::Arr(texts_to_jvals(m.blocker))),
    ]
}

/// The objects an encoded store parses to.
pub open spec fn objs_of(ms: Seq<StandupModel>) -> Seq<JVal> {
    Seq::new(ms.len(), |k: int| JVal::Obj(entry_members(ms[k])))
}

/// An embedded string literal parses back to its body.
proof fn lemma_parse_key_at(s: Seq<char>, i: int, msg: Seq<char>)
    requires
        crate::json::embed(s, i, enc_text(msg)),
    ensures
        s[i] == '"',
        crate::json::sp_string_body(s, i + 1) == Some((msg, i + enc_text(msg).len())),
{
    let esc = crate::json::esc_str(msg);
    assert(enc_text(msg) == seq!['"'] + (esc + seq!['"'])) by {
        assert(seq!['"'] + (esc + seq!['"']) =~= enc_text(msg));
    }
    crate::json::lemma_embed_split(s, i, seq!['"'], esc + seq!['"']);
    crate::json::lemma_embed_index(s, i, seq!['"'], 0);
    assert(s[i] == '"');
    crate::json::lemma_embed_split(s, i + 1, esc, seq!['"']);
    crate::json::lemma_embed_index(s, i + 1 + esc.len(), seq!['"'], 0);
    assert(s[i + 1 + esc.len()] == '"');
    crate::json::lemma_parse_esc(s, i + 1, msg);
}

/// An embedded string literal parses back as a string value.
proof fn lemma_parse_text_at(s: Seq<char>, i: int, msg: Seq<char>)
    requires
        crate::json::embed(s, i, enc_text(msg)),
    ensures
        crate::json::sp_value(s, i) == Some((JVal::Text(msg), i + enc_text(msg).len())),
{
    lemma_parse_key_at(s, i, msg);
}

/// Embedded encoded list elements parse back as the elements of an array.
proof fn lemma_parse_texts_items(s: Seq<char>, i: int, list: Seq<Seq<char>>)
    requires
        list.len() >= 1,
        crate::json::embed(s, i, enc_texts_body(list) + seq![']']),
    ensures
        crate::json::sp_arr_items(s, i) == Some(
            (texts_to_jvals(list), i + enc_texts_body(list).len() + 1),
        ),
    decreases list.len(),
{
    let first = enc_text(list[0]);
    let drop = list.drop_first();
    if drop.len() == 0 {
        assert(enc_texts_body(list) + seq![']'] == first + seq![']']) by {
            assert(enc_texts_rest(drop) == Seq::<char>::empty());
            assert(enc_texts_body(list) + seq![']'] =~= first + seq![']']);
        }
        crate::json::lemma_embed_split(s, i, first, seq![']']);
        lemma_parse_text_at(s, i, list[0]);
        crate::json::lemma_embed_index(s, i + first.len(), seq![']'], 0);
        crate::json::lemma_arr_items_last(s, i, JVal::Text(list[0]), i + first.len());
        assert(seq![JVal::Text(list[0])] =~= texts_to_jvals(list));
    } else {
        let rest_body = enc_texts_body(drop);
        assert(enc_texts_rest(drop) == seq![','] + rest_body) by {
            assert(enc_texts_rest(drop) =~= seq![','] + rest_body);
        }
        assert(enc_texts_body(list) + seq![']'] == first + (seq![','] + (rest_body + seq![']'])))
            by {
            assert(enc_texts_body(list) + seq![']'] =~= first + (seq![','] + (rest_body
                + seq![']'])));
        }
        crate::json::lemma_embed_split(s, i, first, seq![','] + (rest_body + seq![']']));
        lemma_parse_text_at(s, i, list[0]);
        let m = i + first.len();
        crate::json::lemma_embed_split(s, m, seq![','], rest_body + seq![']']);
        crate::json::lemma_embed_index(s, m, seq![','], 0);
        lemma_parse_texts_items(s, m + 1, drop);
        crate::json::lemma_arr_items_cons(
            s,
            i,
            JVal::Text(list[0]),
            m,
            texts_to_jvals(drop),
            m + 1 + rest_body.len() + 1,
        );
        assert(seq![JVal::Text(list[0])] + texts_to_jvals(drop) =~= texts_to_jvals(list));
    }
}

/// An embedded encoded string array parses back as an array of string
/// values.
proof fn lemma_parse_text_list_at(s: Seq<char>, i: int, list: Seq<Seq<char>>)
    requires
        crate::json::embed(s, i, enc_texts_list(list)),
    ensures
        crate::json::sp_value(s, i) == Some(
            (JVal::Arr(texts_to_jvals(list)), i + enc_texts_list(list).len()),
        ),
{
    let body = enc_texts_body(list);
    assert(enc_texts_list(list) == seq!['['] + (body + seq![']'])) by {
        assert(enc_texts_list(list) =~= seq!['['] + (body + seq![']']));
    }
    crate::json::lemma_embed_split(s, i, seq!['['], body + seq![']']);
    crate::json::lemma_embed_index(s, i, seq!['['], 0);
    assert(s[i] == '[');
    if list.len() == 0 {
        assert(body == Seq::<char>::empty());
        crate::json::lemma_embed_index(s, i + 1, body + seq![']'], 0);
        assert(s[i + 1] == ']');
        assert(crate::json::sp_ws(s, i + 1) == i + 1);
        assert(texts_to_jvals(list) =~= Seq::<JVal>::empty());
    } else {
        crate::json::lemma_embed_index(s, i + 1, body + seq![']'], 0);
        assert((body + seq![']'])[0] == body[0]);
        assert(body[0] == enc_text(list[0])[0]) by {
            assert(enc_text(list[0])[0] == '"');
            assert(body =~= enc_text(list[0]) + enc_texts_rest(list.drop_first()));
        }
        assert(s[i + 1] == '"');
        assert(crate::json::sp_ws(s, i + 1) == i + 1);
        lemma_parse_texts_items(s, i + 1, list);
    }
}

/// One embedded object member: its key, the colon, its encoded value and
/// the delimiter after it, located within the text.
proof fn lemma_member_embed(
    s: Seq<char>,
    i: int,
    key: Seq<char>,
    val: Seq<char>,
    delim: char,
    rest: Seq<char>,
)
    requires
        crate::json::embed(s, i, enc_text(key) + (seq![':'] + (val + (seq![delim] + rest)))),
    ensures
        s[i] == '"',
        crate::json::sp_string_body(s, i + 1) == Some((key, i + enc_text(key).len())),
        s[i + enc_text(key).len()] == ':',
        crate::json::embed(s, i + enc_text(key).len() + 1, val),
        s[i + enc_text(key).len() + 1 + val.len()] == delim,
        crate::json::embed(s, i + enc_text(key).len() + 1 + val.len() + 1, rest),
{
    crate::json::lemma_embed_split(s, i, enc_text(key), seq![':'] + (val + (seq![delim] + rest)));
    lemma_parse_key_at(s, i, key);
    let j = i + enc_text(key).len();
    crate::json::lemma_embed_split(s, j, seq![':'], val + (seq![delim] + rest));
    crate::json::lemma_embed_index(s, j, seq![':'], 0);
    crate::json::lemma_embed_split(s, j + 1, val, seq![delim] + rest);
    let m = j + 1 + val.len();
    crate::json::lemma_embed_split(s, m, seq![delim], rest);
    crate::json::lemma_embed_index(s, m, seq![delim], 0);
}

/// The last member of an encoded record: a key with a string-array value,
/// closed by the brace.
proof fn lemma_member_last_list(s: Seq<char>, i: int, key: Seq<char>, list: Seq<Seq<char>>)
    requires
        crate::json::embed(
            s,
            i,
            enc_member(key, enc_texts_list(list), '}', Seq::<char>::empty()),
        ),
    ensures
        crate::json::sp_obj_items(s, i) == Some(
            (
                seq![(key, JVal::Arr(texts_to_jvals(list)))],
                i + enc_member(key, enc_texts_list(list), '}', Seq::<char>::empty()).len(),
            ),
        ),
{
    lemma_member_embed(s, i, key, enc_texts_list(list), '}', Seq::<char>::empty());
    let j = i + enc_text(key).len();
    lemma_parse_text_list_at(s, j + 1, list);
    let m = j + 1 + enc_texts_list(list).len();
    crate::json::lemma_obj_items_last(s, i, key, j, JVal::Arr(texts_to_jvals(list)), m);
}

/// A middle member of an encoded record with a string-array value,
/// followed by a comma and the remaining members.
proof fn lemma_member_cons_list(
    s: Seq<char>,
    i: int,
    key: Seq<char>,
    list: Seq<Seq<char>>,
    rest_enc: Seq<char>,
    rest_models: Seq<(Seq<char>, JVal)>,
    q: int,
)
    requires
        crate::json::embed(s, i, enc_member(key, enc_texts_list(list), ',', rest_enc)),
        crate::json::sp_obj_items(
            s,
            i + enc_text(key).len() + 1 + enc_texts_list(list).len() + 1,
        ) == Some((rest_models, q)),
    ensures
        crate::json::sp_obj_items(s, i) == Some(
            (seq![(key, JVal::Arr(texts_to_jvals(list)))] + rest_models, q),
        ),
{
    lemma_member_embed(s, i, key, enc_texts_list(list), ',', rest_enc);
    let j = i + enc_text(key).len();
    lemma_parse_text_list_at(s, j + 1, list);
    let m = j + 1 + enc_texts_list(list).len();
    crate::json::lemma_obj_items_cons(
        s,
        i,
        key,
        j,
        JVal::Arr(texts_to_jvals(list)),
        m,
        rest_models,
        q,
    );
}

/// The first member of an encoded record: the date key with its string
/// value, followed by a comma and the remaining members.
proof fn lemma_member_cons_text(
    s: Seq<char>,
    i: int,
    key: Seq<char>,
    msg: Seq<char>,
    rest_enc: Seq<char>,
    rest_models: Seq<(Seq<char>, JVal)>,
    q: int,
)
    requires
        crate::json::embed(s, i, enc_member(key, enc_text(msg), ',', rest_enc)),
        crate::json::sp_obj_items(s, i + enc_text(key).len() + 1 + enc_text(msg).len() + 1)
            == Some((rest_models, q)),
    ensures
        crate::json::sp_obj_items(s, i) == Some((seq![(key, JVal::Text(msg))] + rest_models, q)),
{
    lemma_member_embed(s, i, key, enc_text(msg), ',', rest_enc);
    let j = i + enc_text(key).len();
    lemma_parse_text_at(s, j + 1, msg);
    let m = j + 1 + enc_text(msg).len();
    crate::json::lemma_obj_items_cons(s, i, key, j, JVal::Text(msg), m, rest_models, q);
}

/// An embedded encoded record parses back as an object with the four keys.
#[verifier::rlimit(100)]
#[verifier::spinoff_prover]
proof fn lemma_parse_entry_at(s: Seq<char>, i: int, m: StandupModel)
    requires
        m.date.wf(),
        crate::json::embed(s, i, enc_entry(m)),
    ensures
        crate::json::sp_value(s, i) == Some(
            (JVal::Obj(entry_members(m)), i + enc_entry(m).len()),
        ),
{
    let v1 = enc_text(spec_date_chars(m.date));
    let v2 = enc_texts_list(m.today);
    let v3 = enc_texts_list(m.yesterday);
    let v4 = enc_texts_list(m.blocker);
    let w1 = JVal::Text(spec_date_chars(m.date));
    let w2 = JVal::Arr(texts_to_jvals(m.today));
    let w3 = JVal::Arr(texts_to_jvals(m.yesterday));
    let w4 = JVal::Arr(texts_to_jvals(m.blocker));
    let empty = Seq::<char>::empty();
    let t4 = enc_member("blocker"@, v4, '}', empty);
    let t3 = enc_member("yesterday"@, v3, ',', t4);
    let t2 = enc_member("today"@, v2, ',', t3);
    let t1 = enc_member("date"@, v1, ',', t2);
    crate::json::lemma_embed_split(s, i, seq!['{'], t1);
    crate::json::lemma_embed_index(s, i, seq!['{'], 0);
    let p1 = i + 1;
    crate::json::lemma_embed_split(s, p1, enc_text("date"@), seq![':'] + (v1 + (seq![','] + t2)));
    crate::json::lemma_embed_split(s, p1 + enc_text("date"@).len(), seq![':'], v1 + (seq![',']
        + t2));
    crate::json::lemma_embed_split(s, p1 + enc_text("date"@).len() + 1, v1, seq![','] + t2);
    crate::json::lemma_embed_split(
        s,
        p1 + enc_text("date"@).len() + 1 + v1.len(),
        seq![','],
        t2,
    );
    let p2 = p1 + enc_text("date"@).len() + 1 + v1.len() + 1;
    crate::json::lemma_embed_split(s, p2, enc_text("today"@), seq![':'] + (v2 + (seq![','] + t3)));
    crate::json::lemma_embed_split(s, p2 + enc_text("today"@).len(), seq![':'], v2 + (seq![',']
        + t3));
    crate::json::lemma_embed_split(s, p2 + enc_text("today"@).len() + 1, v2, seq![','] + t3);
    crate::json::lemma_embed_split(
        s,
        p2 + enc_text("today"@).len() + 1 + v2.len(),
        seq![','],
        t3,
    );
    let p3 = p2 + enc_text("today"@).len() + 1 + v2.len() + 1;
    crate::json::lemma_embed_split(s, p3, enc_text("yesterday"@), seq![':'] + (v3 + (seq![',']
        + t4)));
    crate::json::lemma_embed_split(s, p3 + enc_text("yesterday"@).len(), seq![':'], v3 + (seq![
        ',',
    ] + t4));
    crate::json::lemma_embed_split(s, p3 + enc_text("yesterday"@).len() + 1, v3, seq![','] + t4);
    crate::json::lemma_embed_split(
        s,
        p3 + enc_text("yesterday"@).len() + 1 + v3.len(),
        seq![','],
        t4,
    );
    let p4 = p3 + enc_text("yesterday"@).len() + 1 + v3.len() + 1;
    lemma_member_last_list(s, p4, "blocker"@, m.blocker);
    lemma_member_cons_list(
        s,
        p3,
        "yesterday"@,
        m.yesterday,
        t4,
        seq![("blocker"@, w4)],
        p4 + t4.len(),
    );
    lemma_member_cons_list(
        s,
        p2,
        "today"@,
        m.today,
        t3,
        seq![("yesterday"@, w3)] + seq![("blocker"@, w4)],
        p4 + t4.len(),
    );
    lemma_member_cons_text(
        s,
        p1,
        "date"@,
        spec_date_chars(m.date),
        t2,
        seq![("today"@, w2)] + (seq![("yesterday"@, w3)] + seq![("blocker"@, w4)]),
        p4 + t4.len(),
    );
    assert(seq![("date"@, w1)] + (seq![("today"@, w2)] + (seq![("yesterday"@, w3)] + seq![
        ("blocker"@, w4),
    ])) =~= entry_members(m));
    assert(s[p1] == '"') by {
        crate::json::lemma_embed_index(s, p1, enc_text("date"@), 0);
    }
    assert(crate::json::sp_ws(s, i + 1) == i + 1);
    assert(crate::json::sp_obj_items(s, i + 1) == Some((entry_members(m), p4 + t4.len())));
    assert(p4 + t4.len() == i + enc_entry(m).len());
}

/// Embedded encoded records parse back as the elements of the top array.
#[verifier::rlimit(100)]
#[verifier::spinoff_prover]
proof fn lemma_parse_entries_items(s: Seq<char>, i: int, ms: Seq<StandupModel>)
    requires
        ms.len() >= 1,
        forall|k: int| 0 <= k < ms.len() ==> (#[trigger] ms[k]).date.wf(),
        crate::json::embed(s, i, enc_doc_body(ms) + seq![']']),
    ensures
        crate::json::sp_arr_items(s, i) == Some((objs_of(ms), i + enc_doc_body(ms).len() + 1)),
    decreases ms.len(),
{
    let first = enc_entry(ms[0]);
    let drop = ms.drop_first();
    if drop.len() == 0 {
        assert(enc_doc_body(ms) + seq![']'] == first + seq![']']) by {
            assert(enc_entries_rest(drop) == Seq::<char>::empty());
            assert(enc_doc_body(ms) + seq![']'] =~= first + seq![']']);
        }
        crate::json::lemma_embed_split(s, i, first, seq![']']);
        lemma_parse_entry_at(s, i, ms[0]);
        crate::json::lemma_embed_index(s, i + first.len(), seq![']'], 0);
        crate::json::lemma_arr_items_last(
            s,
            i,
            JVal::Obj(entry_members(ms[0])),
            i + first.len(),
        );
        assert(seq![JVal::Obj(entry_members(ms[0]))] =~= objs_of(ms));
    } else {
        let rest_body = enc_doc_body(drop);
        assert(enc_entries_rest(drop) == seq![','] + rest_body) by {
            assert(enc_entries_rest(drop) =~= seq![','] + rest_body);
        }
        assert(enc_doc_body(ms) + seq![']'] == first + (seq![','] + (rest_body + seq![']'])))
            by {
            assert(enc_doc_body(ms) + seq![']'] =~= first + (seq![','] + (rest_body
                + seq![']'])));
        }
        crate::json::lemma_embed_split(s, i, first, seq![','] + (rest_body + seq![']']));
        lemma_parse_entry_at(s, i, ms[0]);
        let m = i + first.len();
        crate::json::lemma_embed_split(s, m, seq![','], rest_body + seq![']']);
        crate::json::lemma_embed_index(s, m, seq![','], 0);
        assert forall|k: int| 0 <= k < drop.len() implies (#[trigger] drop[k]).date.wf() by {
            assert(drop[k] == ms[k + 1]);
        }
        lemma_parse_entries_items(s, m + 1, drop);
        crate::json::lemma_arr_items_cons(
            s,
            i,
            JVal::Obj(entry_members(ms[0])),
            m,
            objs_of(drop),
            m + 1 + rest_body.len() + 1,
        );
        assert(seq![JVal::Obj(entry_members(ms[0]))] + objs_of(drop) =~= objs_of(ms));
    }
}

/// An encoded store parses back as an array of the records' objects.
pub proof fn lemma_parse_doc(ms: Seq<StandupModel>)
    requires
        forall|k: int| 0 <= k < ms.len() ==> (#[trigger] ms[k]).date.wf(),
    ensures
        sp_json(enc_doc(ms)) == Some(JVal::Arr(objs_of(ms))),
{
    let s = enc_doc(ms);
    let body = enc_doc_body(ms);
    assert(crate::json::embed(s, 0, seq!['['] + (body + seq![']']))) by {
        assert(s.subrange(0, s.len() as int) =~= s);
        assert(s =~= seq!['['] + (body + seq![']']));
    }
    crate::json::lemma_embed_split(s, 0, seq!['['], body + seq![']']);
    crate::json::lemma_embed_index(s, 0, seq!['['], 0);
    assert(s[0] == '[');
    assert(crate::json::sp_ws(s, 0) == 0);
    if ms.len() == 0 {
        assert(body == Seq::<char>::empty());
        crate::json::lemma_embed_index(s, 1, body + seq![']'], 0);
        assert(s[1] == ']');
        assert(crate::json::sp_ws(s, 1) == 1);
        assert(crate::json::sp_value(s, 0) == Some((JVal::Arr(Seq::<JVal>::empty()), 2int)));
        assert(crate::json::sp_ws(s, 2) == 2 == s.len());
        assert(objs_of(ms) =~= Seq::<JVal>::empty());
    } else {
        crate::json::lemma_embed_index(s, 1, body + seq![']'], 0);
        assert((body + seq![']'])[0] == body[0]);
        assert(body[0] == enc_entry(ms[0])[0]) by {
            assert(enc_entry(ms[0])[0] == '{');
            assert(body =~= enc_entry(ms[0]) + enc_entries_rest(ms.drop_first()));
        }
        assert(s[1] == '{');
        assert(crate::json::sp_ws(s, 1) == 1);
        lemma_parse_entries_items(s, 1, ms);
        assert(crate::json::sp_value(s, 0) == Some((JVal::Arr(objs_of(ms)), s.len() as int)));
        assert(crate::json::sp_ws(s, s.len() as int) == s.len());
    }
}

/// Reading back the string values of an all-strings array is the identity.
proof fn lemma_texts_of_to_jvals(list: Seq<Seq<char>>)
    ensures
        texts_of(texts_to_jvals(list)) == list,
    decreases list.len(),
{
    if list.len() == 0 {
        assert(texts_of(texts_to_jvals(list)) =~= list);
    } else {
        assert(texts_to_jvals(list)[0] == JVal::Text(list[0]));
        assert(texts_to_jvals(list).drop_first() =~= texts_to_jvals(list.drop_first()));
        lemma_texts_of_to_jvals(list.drop_first());
        assert(seq![list[0]] + list.drop_first() =~= list);
    }
}

/// Extracting a record from its own parsed object yields the record,
/// whatever the stand-in date.
proof fn lemma_extract_entry(m: StandupModel, d: Date)
    requires
        m.date.wf(),
    ensures
        entry_of(entry_members(m), d) == m,
{
    proof_strlit_facts();
    let mem = entry_members(m);
    let m1 = ("date"@, JVal::Text(spec_date_chars(m.date)));
    let m2 = ("today"@, JVal::Arr(texts_to_jvals(m.today)));
    let m3 = ("yesterday"@, JVal::Arr(texts_to_jvals(m.yesterday)));
    let m4 = ("blocker"@, JVal::Arr(texts_to_jvals(m.blocker)));
    assert(mem.last() == m4);
    assert(mem.drop_last() =~= seq![m1, m2, m3]);
    assert(seq![m1, m2, m3].last() == m3);
    assert(seq![m1, m2, m3].drop_last() =~= seq![m1, m2]);
    assert(seq![m1, m2].last() == m2);
    assert(seq![m1, m2].drop_last() =~= seq![m1]);
    assert(seq![m1].last() == m1);
    assert(seq![m1].drop_last() =~= Seq::<(Seq<char>, JVal)>::empty());
    assert("blocker"@ != "yesterday"@ && "blocker"@ != "today"@ && "blocker"@ != "date"@);
    assert("yesterday"@ != "today"@ && "yesterday"@ != "date"@);
    assert("today"@ != "date"@);
    assert(obj_get(mem, "blocker"@) == Some(m4.1));
    assert(obj_get(mem, "yesterday"@) == obj_get(seq![m1, m2, m3], "yesterday"@));
    assert(obj_get(seq![m1, m2, m3], "yesterday"@) == Some(m3.1));
    assert(obj_get(mem, "today"@) == obj_get(seq![m1, m2, m3], "today"@));
    assert(obj_get(seq![m1, m2, m3], "today"@) == obj_get(seq![m1, m2], "today"@));
    assert(obj_get(seq![m1, m2], "today"@) == Some(m2.1));
    assert(obj_get(mem, "date"@) == obj_get(seq![m1, m2, m3], "date"@));
    assert(obj_get(seq![m1, m2, m3], "date"@) == obj_get(seq![m1, m2], "date"@));
    assert(obj_get(seq![m1, m2], "date"@) == obj_get(seq![m1], "date"@));
    assert(obj_get(seq![m1], "date"@) == Some(m1.1));
    lemma_texts_of_to_jvals(m.today);
    lemma_texts_of_to_jvals(m.yesterday);
    lemma_texts_of_to_jvals(m.blocker);
    crate::date::lemma_date_render_parse(m.date);
}

/// The four keys are four different strings.
proof fn proof_strlit_facts()
    ensures
        "date"@.len() == 4,
        "today"@.len() == 5,
        "yesterday"@.len() == 9,
        "blocker"@.len() == 7,
{
    reveal_strlit("date");
    reveal_strlit("today");
    reveal_strlit("yesterday");
    reveal_strlit("blocker");
}

/// Round trip: decoding an encoded list of records yields the same records,
/// whatever date stands in for unreadable ones.
pub proof fn lemma_decode_encode(ms: Seq<StandupModel>, d: Date)
    requires
        forall|k: int| 0 <= k < ms.len() ==> (#[trigger] ms[k]).date.wf(),
    ensures
        spec_decode(enc_doc(ms), d) == Ok::<Seq<StandupModel>, DecodeError>(ms),
{
    lemma_parse_doc(ms);
    let s = enc_doc(ms);
    let items = objs_of(ms);
    assert forall|k: int| 0 <= k < items.len() implies (#[trigger] items[k]) is Obj by {
        assert(items[k] == JVal::Obj(entry_members(ms[k])));
    }
    assert(spec_decode_status(s) is Ok);
    let decoded = spec_decode(s, d)->Ok_0;
    assert forall|k: int| 0 <= k < ms.len() implies decoded[k] == ms[k] by {
        assert(items[k] == JVal::Obj(entry_members(ms[k])));
        lemma_extract_entry(ms[k], d);
    }
    assert(decoded =~= ms);
}

/// Decodes the journal file format; a record without a readable date is
/// dated the current local day.
pub fn deserialize(json: &str) -> (r: Result<Vec<Standup>, DecodeError>)
    ensures
        (r is Ok) == (spec_decode_status(json@) is Ok),
        r matches Err(e) ==> spec_decode_status(json@) == Err::<(), DecodeError>(e),
        r matches Ok(v) ==> exists|d: Date|
            (#[trigger] d.wf()) && Ok::<Seq<StandupModel>, DecodeError>(v.deep_view()) == spec_decode(json@, d),
        r matches Ok(v) ==> forall|i: int| 0 <= i < v@.len() ==> (#[trigger] v@[i]).wf(),
{
    let today = Date::today();
    let r = deserialize_with(json, today);
    proof {
        if r is Ok {
            let v = r->Ok_0;
            assert(today.wf() && Ok::<Seq<StandupModel>, DecodeError>(v.deep_view()) == spec_decode(json@, today));
        }
    }
    r
}

} // verus!
