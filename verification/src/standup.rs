use vstd::prelude::*;

use crate::clock::weekday_of;
use crate::date::spec_date_chars;
use crate::date::Date;
use crate::text::chars_to_string;
use crate::text::push_dec;
use crate::text::push_str_chars;
use crate::text::spec_dec_str;

verus! {

/// One of the three note categories of a day's record.
#[derive(Clone, Copy, Debug, PartialEq, Eq, Structural)]
pub enum Aspect {
    Today,
    Yesterday,
    Blocker,
}

/// One day's journal record: the date it belongs to and the ordered message
/// lists for each aspect.  Every mutating operation returns a new record and
/// leaves its receiver untouched.
#[derive(Clone, Debug, PartialEq, Eq)]
pub struct Standup {
    pub today: Vec<String>,
    pub yesterday: Vec<String>,
    pub blocker: Vec<String>,
    pub date: Date,
}

/// The mathematical content of a record: its date and the three ordered
/// message lists.
pub struct StandupModel {
    pub date: Date,
    pub today: Seq<Seq<char>>,
    pub yesterday: Seq<Seq<char>>,
    pub blocker: Seq<Seq<char>>,
}

impl StandupModel {
    /// The record with the given date and no messages.
    pub open spec fn empty(date: Date) -> StandupModel {
        StandupModel { date, today: Seq::empty(), yesterday: Seq::empty(), blocker: Seq::empty() }
    }

    /// The list the given aspect names.
    pub open spec fn list(self, aspect: Aspect) -> Seq<Seq<char>> {
        match aspect {
            Aspect::Today => self.today,
            Aspect::Yesterday => self.yesterday,
            Aspect::Blocker => self.blocker,
        }
    }

    /// The record with the named list appended by `msg` and everything else
    /// unchanged.
    pub open spec fn add(self, aspect: Aspect, msg: Seq<char>) -> StandupModel {
        match aspect {
            Aspect::Today => StandupModel { today: self.today.push(msg), ..self },
            Aspect::Yesterday => StandupModel { yesterday: self.yesterday.push(msg), ..self },
            Aspect::Blocker => StandupModel { blocker: self.blocker.push(msg), ..self },
        }
    }

    /// The record with the element at `index` removed from the named list;
    /// the record itself when `index` is out of range.
    pub open spec fn remove(self, aspect: Aspect, index: int) -> StandupModel {
        if index < self.list(aspect).len() {
            match aspect {
                Aspect::Today => StandupModel { today: self.today.remove(index), ..self },
                Aspect::Yesterday => StandupModel {
                    yesterday: self.yesterday.remove(index),
                    ..self
                },
                Aspect::Blocker => StandupModel { blocker: self.blocker.remove(index), ..self },
            }
        } else {
            self
        }
    }
}

impl View for Standup {
    type V = StandupModel;

    open spec fn view(&self) -> StandupModel {
        StandupModel {
            date: self.date,
            today: self.today.deep_view(),
            yesterday: self.yesterday.deep_view(),
            blocker: self.blocker.deep_view(),
        }
    }
}

impl DeepView for Standup {
    type V = StandupModel;

    open spec fn deep_view(&self) -> StandupModel {
        self.view()
    }
}

impl Standup {
    /// A record is well formed when its date is.
    pub open spec fn wf(self) -> bool {
        self.date.wf()
    }

    /// A fresh record for the current local day, with all three lists empty.
    pub fn new() -> (r: Standup)
        ensures
            r@ == StandupModel::empty(r.date),
            r.wf(),
    {
        let r = Standup {
            today: Vec::new(),
            yesterday: Vec::new(),
            blocker: Vec::new(),
            date: Date::today(),
        };
        assert(r@.today =~= Seq::<Seq<char>>::empty());
        assert(r@.yesterday =~= Seq::<Seq<char>>::empty());
        assert(r@.blocker =~= Seq::<Seq<char>>::empty());
        r
    }

    /// A fresh record for the given day, with all three lists empty.
    pub fn from_date(date: Date) -> (r: Standup)
        ensures
            r@ == StandupModel::empty(date),
    {
        let r = Standup { today: Vec::new(), yesterday: Vec::new(), blocker: Vec::new(), date };
        assert(r@.today =~= Seq::<Seq<char>>::empty());
        assert(r@.yesterday =~= Seq::<Seq<char>>::empty());
        assert(r@.blocker =~= Seq::<Seq<char>>::empty());
        r
    }

    /// True exactly when the blocker list is non-empty.
    pub fn is_blocked(&self) -> (b: bool)
        ensures
            b == (self@.blocker.len() != 0),
    {
        self.blocker.len() != 0
    }

    /// The same record under a different date.
    pub fn set_date(self, date: Date) -> (r: Standup)
        ensures
            r@ == (StandupModel { date, ..self@ }),
    {
        Standup { date, ..self }
    }

    /// A record with `msg` appended to the list `aspect` names; the other
    /// lists and the date are unchanged.
    pub fn add(self, aspect: Aspect, msg: &str) -> (r: Standup)
        ensures
            r@ == self@.add(aspect, msg@),
    {
        match aspect {
            Aspect::Today => self.add_today(msg),
            Aspect::Yesterday => self.add_yesterday(msg),
            Aspect::Blocker => self.add_blocker(msg),
        }
    }

    /// A record with the element at `index` removed from the list `aspect`
    /// names; the record is returned unchanged when `index` is out of range.
    pub fn remove(self, aspect: Aspect, index: usize) -> (r: Standup)
        ensures
            r@ == self@.remove(aspect, index as int),
    {
        match aspect {
            Aspect::Today => self.remove_today(index),
            Aspect::Yesterday => self.remove_yesterday(index),
            Aspect::Blocker => self.remove_blocker(index),
        }
    }

    pub fn add_today(self, msg: &str) -> (r: Standup)
        ensures
            r@ == self@.add(Aspect::Today, msg@),
    {
        let mut list = self.today;
        let ghost before = list.deep_view();
        list.push(String::from_str(msg));
        assert(list.deep_view() =~= before.push(msg@));
        Standup { today: list, ..self }
    }

    pub fn add_yesterday(self, msg: &str) -> (r: Standup)
        ensures
            r@ == self@.add(Aspect::Yesterday, msg@),
    {
        let mut list = self.yesterday;
        let ghost before = list.deep_view();
        list.push(String::from_str(msg));
        assert(list.deep_view() =~= before.push(msg@));
        Standup { yesterday: list, ..self }
    }

    pub fn add_blocker(self, msg: &str) -> (r: Standup)
        ensures
            r@ == self@.add(Aspect::Blocker, msg@),
    {
        let mut list = self.blocker;
        let ghost before = list.deep_view();
        list.push(String::from_str(msg));
        assert(list.deep_view() =~= before.push(msg@));
        Standup { blocker: list, ..self }
    }

    pub fn remove_today(self, index: usize) -> (r: Standup)
        ensures
            r@ == self@.remove(Aspect::Today, index as int),
    {
        if index >= self.today.len() {
            self
        } else {
            let mut list = self.today;
            let ghost before = list.deep_view();
            list.remove(index);
            assert(list.deep_view() =~= before.remove(index as int));
            Standup { today: list, ..self }
        }
    }

    pub fn remove_yesterday(self, index: usize) -> (r: Standup)
        ensures
            r@ == self@.remove(Aspect::Yesterday, index as int),
    {
        if index >= self.yesterday.len() {
            self
        } else {
            let mut list = self.yesterday;
            let ghost before = list.deep_view();
            list.remove(index);
            assert(list.deep_view() =~= before.remove(index as int));
            Standup { yesterday: list, ..self }
        }
    }

    /// A copy of this record with the same date and the same lists.
    pub fn duplicate(&self) -> (r: Standup)
        ensures
            r@ == self@,
            r.date == self.date,
    {
        let r = Standup {
            today: self.today.clone(),
            yesterday: self.yesterday.clone(),
            blocker: self.blocker.clone(),
            date: self.date,
        };
        proof {
            assert(r.today@ =~= self.today@);
            assert(r.yesterday@ =~= self.yesterday@);
            assert(r.blocker@ =~= self.blocker@);
            assert(r.today.deep_view() =~= self.today.deep_view());
            assert(r.yesterday.deep_view() =~= self.yesterday.deep_view());
            assert(r.blocker.deep_view() =~= self.blocker.deep_view());
        }
        r
    }

    pub fn remove_blocker(self, index: usize) -> (r: Standup)
        ensures
            r@ == self@.remove(Aspect::Blocker, index as int),
    {
        if index >= self.blocker.len() {
            self
        } else {
            let mut list = self.blocker;
            let ghost before = list.deep_view();
            list.remove(index);
            assert(list.deep_view() =~= before.remove(index as int));
            Standup { blocker: list, ..self }
        }
    }
}

/// One numbered display line: four spaces, the number, a dot, the message,
/// a newline.
pub open spec fn spec_line(n: int, msg: Seq<char>) -> Seq<char> {
    "    "@ + spec_dec_str(n) + ". "@ + msg + "\n"@
}

/// The numbered display lines of a message list, counting from `n`.
pub open spec fn spec_lines_from(msgs: Seq<Seq<char>>, n: int) -> Seq<char>
    decreases msgs.len(),
{
    if msgs.len() == 0 {
        Seq::empty()
    } else {
        spec_line(n, msgs[0]) + spec_lines_from(msgs.drop_first(), n + 1)
    }
}

proof fn lemma_lines_from_push(msgs: Seq<Seq<char>>, last: Seq<char>, n: int)
    ensures
        spec_lines_from(msgs.push(last), n) == spec_lines_from(msgs, n) + spec_line(
            n + msgs.len(),
            last,
        ),
    decreases msgs.len(),
{
    if msgs.len() == 0 {
        assert(msgs.push(last).drop_first() =~= Seq::<Seq<char>>::empty());
        assert(spec_lines_from(msgs.push(last).drop_first(), n + 1) == Seq::<char>::empty());
        assert(msgs.push(last)[0] == last);
        assert(spec_lines_from(msgs.push(last), n) =~= spec_lines_from(msgs, n) + spec_line(
            n + msgs.len(),
            last,
        ));
    } else {
        assert(msgs.push(last).drop_first() =~= msgs.drop_first().push(last));
        lemma_lines_from_push(msgs.drop_first(), last, n + 1);
        assert(msgs.push(last)[0] == msgs[0]);
        assert(spec_lines_from(msgs.push(last), n) == spec_line(n, msgs[0]) + spec_lines_from(
            msgs.drop_first().push(last),
            n + 1,
        ));
        assert(spec_lines_from(msgs.drop_first().push(last), n + 1) == spec_lines_from(
            msgs.drop_first(),
            n + 1,
        ) + spec_line(n + msgs.len(), last));
        assert(spec_lines_from(msgs.push(last), n) =~= spec_lines_from(msgs, n) + spec_line(
            n + msgs.len(),
            last,
        ));
    }
}

/// The display text of a record: the date and its weekday name, then the
/// today and yesterday sections always, then the blocker section only when
/// the blocker list is non-empty.
pub open spec fn spec_render(m: StandupModel, weekday: Seq<char>) -> Seq<char> {
    spec_date_chars(m.date) + " - "@ + weekday + "\n"@ + "  today:\n"@ + spec_lines_from(
        m.today,
        1,
    ) + "  yesterday:\n"@ + spec_lines_from(m.yesterday, 1) + (if m.blocker.len() != 0 {
        "  blocker:\n"@ + spec_lines_from(m.blocker, 1)
    } else {
        Seq::empty()
    })
}

fn push_lines(out: &mut Vec<char>, msgs: &Vec<String>)
    ensures
        final(out)@ == old(out)@ + spec_lines_from(msgs.deep_view(), 1),
{
    let n = msgs.len();
    let mut i: usize = 0;
    while i < n
        invariant
            n == msgs.len(),
            i <= n,
            out@ == old(out)@ + spec_lines_from(msgs.deep_view().take(i as int), 1),
        decreases n - i,
    {
        let ghost prefix = msgs.deep_view().take(i as int);
        push_str_chars(out, "    ");
        push_dec(out, (i + 1) as u64);
        push_str_chars(out, ". ");
        push_str_chars(out, msgs[i].as_str());
        push_str_chars(out, "\n");
        proof {
            lemma_lines_from_push(prefix, msgs.deep_view()[i as int], 1);
            assert(msgs.deep_view().take(i + 1) =~= prefix.push(msgs.deep_view()[i as int]));
            assert(out@ =~= old(out)@ + spec_lines_from(msgs.deep_view().take(i + 1), 1));
        }
        i = i + 1;
    }
    proof {
        assert(msgs.deep_view().take(n as int) =~= msgs.deep_view());
    }
}

impl Standup {
    /// The display text of this record, ready to print.
    pub fn display_text(&self) -> (r: String)
        requires
            self.wf(),
        ensures
            r@ == spec_render(
                self@,
                weekday_of(self.date.year as int, self.date.month as int, self.date.day as int),
            ),
    {
        let mut out: Vec<char> = Vec::new();
        self.date.push_chars(&mut out);
        push_str_chars(&mut out, " - ");
        let weekday = self.date.weekday_name();
        push_str_chars(&mut out, weekday.as_str());
        push_str_chars(&mut out, "\n");
        push_str_chars(&mut out, "  today:\n");
        push_lines(&mut out, &self.today);
        push_str_chars(&mut out, "  yesterday:\n");
        push_lines(&mut out, &self.yesterday);
        if self.blocker.len() != 0 {
            push_str_chars(&mut out, "  blocker:\n");
            push_lines(&mut out, &self.blocker);
        }
        chars_to_string(&out)
    }
}

} // verus!
