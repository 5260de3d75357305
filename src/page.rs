//! State kept by the client's pages, and the decisions taken on it; drawing,
//! input and network work stay with the caller.
use vstd::prelude::*;
use vstd::string::StrSliceExecFns;

verus! {

/// Whether a character is a letter or a digit in Unicode.
pub uninterp spec fn alphanumeric(c: char) -> bool;

/// Relies on `char::is_alphanumeric`: whether `c` is alphabetic or numeric in
/// Unicode; the answer depends on the character alone.
#[verifier::external_body]
fn is_alphanumeric(c: char) -> (r: bool)
    ensures
        r == alphanumeric(c),
{
    c.is_alphanumeric()
}

/// A character a username may hold.
pub open spec fn username_char(c: char) -> bool {
    c == '_' || c == '-' || alphanumeric(c)
}

pub const USERNAME_LENGTH_ERROR: &'static str = "Username length should be between 4 and 20";

pub const USERNAME_CHAR_ERROR: &'static str = "Username contains illegal characters";

/// Checks a username: 4 to 20 bytes long, of letters, digits, `_` and `-`.
/// Gives the complaint, if any; a bad length is reported first.
pub fn validate_username(username: &str) -> (r: Option<&'static str>)
    ensures
        !(4 <= username.len() <= 20) ==> r == Some(USERNAME_LENGTH_ERROR),
        (4 <= username.len() <= 20) && (exists|i: int|
            0 <= i < username@.len() && !username_char(#[trigger] username@[i])) ==> r == Some(
            USERNAME_CHAR_ERROR,
        ),
        r is None <==> (4 <= username.len() <= 20) && forall|i: int|
            0 <= i < username@.len() ==> username_char(#[trigger] username@[i]),
{
    let len = username.len();
    if len < 4 || len > 20 {
        return Some(USERNAME_LENGTH_ERROR);
    }
    let n = username.unicode_len();
    let mut i: usize = 0;
    while i < n
        invariant
            n == username@.len(),
            i <= n,
            4 <= username.len() <= 20,
            forall|j: int| 0 <= j < i ==> username_char(#[trigger] username@[j]),
        decreases n - i,
    {
        let c = username.get_char(i);
        if c != '_' && c != '-' && !is_alphanumeric(c) {
            return Some(USERNAME_CHAR_ERROR);
        }
        i += 1;
    }
    None
}

pub const ABOUT_TEXT: &'static str = "prpr-client v0.1.0
prpr is a Phigros simulator designed to provide a unified platform for homemade play. Please consciously abide by the relevant requirements of the community, do not use PRPR maliciously, and do not arbitrarily produce or disseminate low-quality works.

The default Material Skins used in this software (including note materials and percussion effects) are derived from @MisaLiu's phi-chart-render (https://github.com/MisaLiu/phi-chart-render), signed under the CC BY-NC 4.0 license (https://creativecommons.org/licenses/by-nc/4.0/). During the development of this software, these materials were resized and compressed for use.

prpr is open source software under the GNU General Public License v3.0.
Test Group：660488396
GitHub: https://github.com/Mivik/prpr
English version GitHub: https://github.com/helloyanis/prpr-english";

/// The about page: the text it shows.
pub struct AboutPage {
    pub text: String,
}

impl AboutPage {
    pub fn new() -> (r: Self)
        ensures
            r.text@ == ABOUT_TEXT@,
    {
        AboutPage { text: ABOUT_TEXT.to_owned() }
    }
}

/// The account page: whether it is in registration mode, the task under way
/// (described by `task_desc`), and the form's inputs.
pub struct AccountPage {
    pub register: bool,
    pub task_running: bool,
    pub task_desc: String,
    pub email_input: String,
    pub username_input: String,
    pub password_input: String,
}

pub const UPDATE_DATA_DESC: &'static str = "Update data";

impl AccountPage {
    /// A fresh page; a logged-in user's data is refreshed at once.
    pub fn new(logged_in: bool) -> (r: Self)
        ensures
            !r.register,
            r.task_running == logged_in,
            logged_in ==> r.task_desc@ == UPDATE_DATA_DESC@,
            !logged_in ==> r.task_desc@.len() == 0,
            r.email_input@.len() == 0,
            r.username_input@.len() == 0,
            r.password_input@.len() == 0,
    {
        AccountPage {
            register: false,
            task_running: logged_in,
            task_desc: if logged_in {
                UPDATE_DATA_DESC.to_owned()
            } else {
                String::new()
            },
            email_input: String::new(),
            username_input: String::new(),
            password_input: String::new(),
        }
    }

    /// Records that a task described by `desc` has started.
    pub fn start(&mut self, desc: String)
        ensures
            final(self).task_desc == desc,
            final(self).task_running,
            final(self).register == old(self).register,
            final(self).email_input == old(self).email_input,
            final(self).username_input == old(self).username_input,
            final(self).password_input == old(self).password_input,
    {
        self.task_desc = desc;
        self.task_running = true;
    }
}

/// The online page: focus, chosen entry, and whether a load is due or under way.
pub struct RemotePage {
    pub focus: bool,
    pub choose: Option<u32>,
    pub first_time: bool,
    pub loading: bool,
}

impl RemotePage {
    pub fn new() -> (r: Self)
        ensures
            !r.focus,
            r.choose is None,
            r.first_time,
            !r.loading,
    {
        RemotePage { focus: false, choose: None, first_time: true, loading: false }
    }

    /// Notes the page's focus; gives whether the list is to be loaded now,
    /// which it is the first time the page gains focus.
    pub fn set_focus(&mut self, focus: bool) -> (load: bool)
        ensures
            load == (!old(self).focus && focus && old(self).first_time),
            final(self).focus == focus,
            final(self).first_time == (old(self).first_time && !load),
            final(self).loading == old(self).loading,
            final(self).choose == old(self).choose,
    {
        let load = !self.focus && focus && self.first_time;
        if load {
            self.first_time = false;
        }
        self.focus = focus;
        load
    }

    /// Starts a load unless one is under way; gives whether it started.
    pub fn begin_refresh(&mut self) -> (started: bool)
        ensures
            started == !old(self).loading,
            final(self).loading,
            final(self).focus == old(self).focus,
            final(self).first_time == old(self).first_time,
            final(self).choose == old(self).choose,
    {
        if self.loading {
            return false;
        }
        self.loading = true;
        true
    }

    /// Notes that a load ended; after a failure the next focus loads again.
    pub fn finish_load(&mut self, ok: bool)
        ensures
            !final(self).loading,
            final(self).first_time == (old(self).first_time || !ok),
            final(self).focus == old(self).focus,
            final(self).choose == old(self).choose,
    {
        self.loading = false;
        if !ok {
            self.first_time = true;
        }
    }
}

} // verus!
