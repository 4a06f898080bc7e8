use vstd::prelude::*;

use crate::date::spec_parse_date;
use crate::date::Date;
use crate::jsonify::enc_doc;
use crate::jsonify::spec_decode;
use crate::jsonify::spec_decode_status;
use crate::jsonify::DecodeError;
use crate::manager::seq_get;
use crate::manager::seq_remove_key;
use crate::manager::seq_upsert;
use crate::manager::seq_upsert_all;
use crate::manager::Manager;
use crate::standup::Aspect;
use crate::standup::Standup;
use crate::standup::StandupModel;
use crate::StandupError;

verus! {

/// Why a session could not be opened: the file text does not decode, or a
/// supplied date override is not a calendar day.
#[derive(Clone, Copy, Debug, PartialEq, Eq, Structural)]
pub enum AppError {
    Parse(DecodeError),
    Cli(StandupError),
}

/// One command's working state: the store loaded from the journal file and
/// the day the command works on.  Mutating operations return the new file
/// text, which the caller persists.
#[derive(Debug)]
pub struct App {
    manager: Manager,
    date: Date,
}

impl App {
    pub open spec fn inv(&self) -> bool {
        self.spec_store_inv() && self.spec_date().wf()
    }

    pub closed spec fn spec_store_inv(&self) -> bool {
        self.manager.inv()
    }

    /// The records the session holds, in ascending date order.
    pub closed spec fn spec_store(&self) -> Seq<StandupModel> {
        self.manager@
    }

    /// The day the session works on.
    pub closed spec fn spec_date(&self) -> Date {
        self.date
    }

    /// The record of the working day, or a fresh empty one.
    pub open spec fn spec_current(&self) -> StandupModel {
        match seq_get(self.spec_store(), self.spec_date().spec_key()) {
            Some(m) => m,
            None => StandupModel::empty(self.spec_date()),
        }
    }

    /// Opens a session from the journal file text (`None` when the file
    /// does not exist) and an optional `YYYY-MM-DD` working-day override
    /// (`None` means the current local day).  An unreadable file text and
    /// an unparsable override each fail.
    pub fn new(file_text: Option<&str>, date: Option<&str>) -> (r: Result<App, AppError>)
        ensures
            r matches Ok(a) ==> a.inv(),
            file_text matches Some(t) ==> (spec_decode_status(t@) matches Err(e) ==> r == Err::<
                App,
                AppError,
            >(AppError::Parse(e))),
            (file_text is None || spec_decode_status(file_text->Some_0@) is Ok) && (date matches Some(ds)
                && spec_parse_date(ds@) is None) ==> r == Err::<App, AppError>(
                AppError::Cli(StandupError::InvalidDate),
            ),
            (r is Ok) == ((file_text is None || spec_decode_status(file_text->Some_0@) is Ok) && (
            date is None || spec_parse_date(date->Some_0@) is Some)),
            r matches Ok(a) ==> (match date {
                Some(ds) => a.spec_date() == spec_parse_date(ds@)->Some_0,
                None => a.spec_date().wf(),
            }),
            r matches Ok(a) ==> (match file_text {
                Some(t) => exists|d: Date|
                    (#[trigger] d.wf()) && spec_decode(t@, d) is Ok && a.spec_store()
                        == seq_upsert_all(spec_decode(t@, d)->Ok_0),
                None => a.spec_store() == Seq::<StandupModel>::empty(),
            }),
    {
        let manager = match file_text {
            Some(t) => match Manager::from_reader(t) {
                Ok(m) => m,
                Err(e) => {
                    return Err(AppError::Parse(e));
                },
            },
            None => Manager::new(),
        };
        let d = match date {
            Some(ds) => match Date::parse(ds) {
                Some(d) => d,
                None => {
                    return Err(AppError::Cli(StandupError::InvalidDate));
                },
            },
            None => Date::today(),
        };
        Ok(App { manager, date: d })
    }

    /// The working day's record: the stored one, or a fresh empty record
    /// dated to the working day.  Never fails.
    pub fn get_standup(&self) -> (r: Standup)
        requires
            self.inv(),
        ensures
            r@ == self.spec_current(),
            r.wf(),
    {
        match self.manager.get(&self.date) {
            Some(e) => {
                proof {
                    crate::manager::lemma_seq_get_iff(self.spec_store(), self.date.spec_key());
                    let m = seq_get(self.spec_store(), self.date.spec_key())->Some_0;
                    let x = choose|x: int|
                        0 <= x < self.spec_store().len() && #[trigger] self.spec_store()[x] == m
                            && m.date.spec_key() == self.date.spec_key();
                }
                e
            },
            None => Standup::from_date(self.date),
        }
    }

    /// All records in ascending date order.
    pub fn standups(&self) -> (r: Vec<Standup>)
        requires
            self.inv(),
        ensures
            r.deep_view() == self.spec_store(),
    {
        self.manager.standups()
    }

    /// Appends `message` to the working day's record under `aspect`, stores
    /// the new record in place of the old one, and returns the new file
    /// text.
    pub fn record(&mut self, aspect: Aspect, message: String) -> (out: String)
        requires
            old(self).inv(),
        ensures
            final(self).inv(),
            final(self).spec_date() == old(self).spec_date(),
            final(self).spec_store() == seq_upsert(
                old(self).spec_store(),
                old(self).spec_current().add(aspect, message@),
            ),
            out@ == enc_doc(final(self).spec_store()),
    {
        let standup = self.get_standup().add(aspect, message.as_str());
        self.manager.insert(standup);
        self.manager.flush()
    }

    /// Removes the element at `index` from the named list of the working
    /// day's record (a no-op beyond the list's end), stores the result, and
    /// returns the new file text.
    pub fn delete_line(&mut self, aspect: Aspect, index: usize) -> (out: String)
        requires
            old(self).inv(),
        ensures
            final(self).inv(),
            final(self).spec_date() == old(self).spec_date(),
            final(self).spec_store() == seq_upsert(
                old(self).spec_store(),
                old(self).spec_current().remove(aspect, index as int),
            ),
            out@ == enc_doc(final(self).spec_store()),
    {
        let standup = self.get_standup().remove(aspect, index);
        self.manager.insert(standup);
        self.manager.flush()
    }

    /// Removes the working day's record entirely; returns the removed
    /// record, if any, and the new file text.
    pub fn delete(&mut self) -> (r: (Option<Standup>, String))
        requires
            old(self).inv(),
        ensures
            final(self).inv(),
            final(self).spec_date() == old(self).spec_date(),
            final(self).spec_store() == seq_remove_key(
                old(self).spec_store(),
                old(self).spec_date().spec_key(),
            ),
            seq_get(final(self).spec_store(), old(self).spec_date().spec_key()) is None,
            (r.0 is Some) == (seq_get(old(self).spec_store(), old(self).spec_date().spec_key())
                is Some),
            r.0 matches Some(e) ==> Some(e@) == seq_get(
                old(self).spec_store(),
                old(self).spec_date().spec_key(),
            ),
            r.1@ == enc_doc(final(self).spec_store()),
    {
        let removed = self.manager.delete(&self.date);
        let text = self.manager.flush();
        (removed, text)
    }
}

} // verus!
