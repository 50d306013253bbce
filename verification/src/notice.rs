//! Notifications: what they say, and the queue in which they wait to be sent.
use crate::text::{all_digits, is_digit};
use vstd::prelude::*;

verus! {

/// The form of the time in a notification, as a `chrono` format.
pub const TIMESTAMP_FORMAT: &'static str = "%Y-%m-%d %H:%M:%S";

/// A notification that is to be sent.
pub struct EmailJob {
    pub to: String,
    pub body: String,
}

/// What an [`EmailJob`] holds.
pub struct JobView {
    pub to: Seq<char>,
    pub body: Seq<char>,
}

impl View for EmailJob {
    type V = JobView;

    open spec fn view(&self) -> JobView {
        JobView { to: self.to@, body: self.body@ }
    }
}

/// What a row of notifications holds.
pub open spec fn jobs_view(jobs: Seq<EmailJob>) -> Seq<JobView> {
    jobs.map_values(|j: EmailJob| j@)
}

/// The two digits at `i` of a text, as a number.
pub open spec fn two_digits(s: Seq<char>, i: int) -> Option<int> {
    if is_digit(s[i]) && is_digit(s[i + 1]) {
        Some((s[i] as int - '0' as int) * 10 + (s[i + 1] as int - '0' as int))
    } else {
        None
    }
}

/// Two digits stand at `i` and make a number from `low` to `high`.
pub open spec fn number_at(s: Seq<char>, i: int, low: int, high: int) -> bool {
    two_digits(s, i) matches Some(n) && low <= n <= high
}

/// A year: four digits, or a sign and at least four digits.
pub open spec fn is_year(s: Seq<char>) -> bool {
    ||| s.len() == 4 && all_digits(s)
    ||| s.len() >= 5 && (s[0] == '+' || s[0] == '-') && all_digits(s.skip(1))
}

/// A date and a time of day such as `2026-07-15 09:30:00`.
pub open spec fn is_timestamp(s: Seq<char>) -> bool {
    let y = s.len() - 15;
    &&& 0 < y
    &&& is_year(s.take(y))
    &&& s[y] == '-'
    &&& number_at(s, y + 1, 1, 12)
    &&& s[y + 3] == '-'
    &&& number_at(s, y + 4, 1, 31)
    &&& s[y + 6] == ' '
    &&& number_at(s, y + 7, 0, 23)
    &&& s[y + 9] == ':'
    &&& number_at(s, y + 10, 0, 59)
    &&& s[y + 12] == ':'
    &&& number_at(s, y + 13, 0, 60)
}

/// `chrono::Local::now`, its `format` and `to_string`: the local time of the call, written
/// as year, month, day, hour, minute and second. Which time it is, is left open: that is
/// for the clock of the machine to say, which has to stand after the start of 1970, and for
/// its time zone, which has to lie less than a day from UTC.
#[verifier::external_body]
fn local_time(format: &str) -> (r: String)
    requires
        format@ == TIMESTAMP_FORMAT@,
    ensures
        is_timestamp(r@),
{
    chrono::Local::now().format(format).to_string()
}

/// The local time, in the form in which notifications give it.
pub fn timestamp_now() -> (r: String)
    ensures
        is_timestamp(r@),
{
    local_time(TIMESTAMP_FORMAT)
}

/// What is said of a file whose contents changed.
pub open spec fn changed_text(
    time: Seq<char>,
    path: Seq<char>,
    old_hash: Seq<char>,
    new_hash: Seq<char>,
) -> Seq<char> {
    "檔案變動時間: "@ + time + "\n路徑: "@ + path + "\n原始雜湊值: "@ + old_hash
        + "\n新的雜湊值: "@ + new_hash
}

/// What is said of a file that was not recorded before.
pub open spec fn added_text(time: Seq<char>, path: Seq<char>, new_hash: Seq<char>) -> Seq<char> {
    "檔案變動時間: "@ + time + "\n路徑: "@ + path + "\n新的雜湊值: "@ + new_hash
}

/// What is said of a file that is gone.
pub open spec fn removed_text(time: Seq<char>, path: Seq<char>, old_hash: Seq<char>) -> Seq<char> {
    "檔案刪除時間: "@ + time + "\n路徑: "@ + path + "\n刪除前雜湊值: "@ + old_hash
}

/// Says that the contents of a file changed.
pub fn changed_body(time: &str, path: &str, old_hash: &str, new_hash: &str) -> (r: String)
    ensures
        r@ == changed_text(time@, path@, old_hash@, new_hash@),
{
    let mut body = "檔案變動時間: ".to_owned();
    body.append(time);
    body.append("\n路徑: ");
    body.append(path);
    body.append("\n原始雜湊值: ");
    body.append(old_hash);
    body.append("\n新的雜湊值: ");
    body.append(new_hash);
    body
}

/// Says that a file was not recorded before.
pub fn added_body(time: &str, path: &str, new_hash: &str) -> (r: String)
    ensures
        r@ == added_text(time@, path@, new_hash@),
{
    let mut body = "檔案變動時間: ".to_owned();
    body.append(time);
    body.append("\n路徑: ");
    body.append(path);
    body.append("\n新的雜湊值: ");
    body.append(new_hash);
    body
}

/// Says that a file is gone.
pub fn removed_body(time: &str, path: &str, old_hash: &str) -> (r: String)
    ensures
        r@ == removed_text(time@, path@, old_hash@),
{
    let mut body = "檔案刪除時間: ".to_owned();
    body.append(time);
    body.append("\n路徑: ");
    body.append(path);
    body.append("\n刪除前雜湊值: ");
    body.append(old_hash);
    body
}

/// The notifications that wait to be sent, in the order in which they came. Once the
/// queue is closed, nothing more comes in.
pub struct MailQueue {
    jobs: Vec<EmailJob>,
    open: bool,
}

/// The queue is closed, and the notification was not taken in.
#[derive(Debug, Clone, Copy, PartialEq, Eq, Structural)]
pub struct QueueClosed;

impl MailQueue {
    /// The notifications that wait.
    pub closed spec fn waiting(&self) -> Seq<JobView> {
        jobs_view(self.jobs@)
    }

    /// Whether the queue still takes notifications in.
    pub closed spec fn accepts(&self) -> bool {
        self.open
    }

    /// An open queue in which nothing waits.
    pub fn new() -> (r: MailQueue)
        ensures
            r.accepts(),
            r.waiting() == Seq::<JobView>::empty(),
    {
        let r = MailQueue { jobs: Vec::new(), open: true };
        assert(r.waiting() =~= Seq::<JobView>::empty());
        r
    }

    /// Closes the queue.
    pub fn close(&mut self)
        ensures
            !final(self).accepts(),
            final(self).waiting() == old(self).waiting(),
    {
        self.open = false;
    }

    /// Takes out all that waits.
    pub fn take_all(&mut self) -> (r: Vec<EmailJob>)
        ensures
            jobs_view(r@) == old(self).waiting(),
            final(self).waiting() == Seq::<JobView>::empty(),
            final(self).accepts() == old(self).accepts(),
    {
        let mut jobs: Vec<EmailJob> = Vec::new();
        std::mem::swap(&mut self.jobs, &mut jobs);
        assert(self.waiting() =~= Seq::<JobView>::empty());
        jobs
    }
}

/// Puts a notification at the end of the queue, unless the queue is closed.
pub fn queue_email(queue: &mut MailQueue, to: &str, body: String) -> (r: Result<(), QueueClosed>)
    ensures
        r is Ok <==> old(queue).accepts(),
        final(queue).accepts() == old(queue).accepts(),
        final(queue).waiting() == (if old(queue).accepts() {
            old(queue).waiting().push(JobView { to: to@, body: body@ })
        } else {
            old(queue).waiting()
        }),
{
    if !queue.open {
        return Err(QueueClosed);
    }
    let ghost before = queue.waiting();
    let ghost job = JobView { to: to@, body: body@ };
    queue.jobs.push(EmailJob { to: to.to_owned(), body });
    assert(queue.waiting() =~= before.push(job));
    Ok(())
}

} // verus!
