//! The mail that carries a notification.
use crate::notice::EmailJob;
use crate::path::opt_text;
use lettre::address::AddressError;
use vstd::prelude::*;

verus! {

/// The subject of every notification.
pub const SUBJECT: &'static str = "檔案變動通知";

/// The error of `lettre` for an address that is not one.
#[verifier::external_type_specification]
#[verifier::external_body]
pub struct ExAddressError(AddressError);

/// The display name, the user and the domain that `lettre` reads in a mailbox such as
/// `Monitor <monitor@example.com>`; nothing, where it reads none.
pub uninterp spec fn mailbox_in(text: Seq<char>) -> Option<
    (Option<Seq<char>>, Seq<char>, Seq<char>),
>;

/// Someone who sends or receives mail.
pub struct MailParty {
    pub name: Option<String>,
    pub user: String,
    pub domain: String,
}

/// What a [`MailParty`] holds.
pub struct PartyView {
    pub name: Option<Seq<char>>,
    pub user: Seq<char>,
    pub domain: Seq<char>,
}

impl View for MailParty {
    type V = PartyView;

    open spec fn view(&self) -> PartyView {
        PartyView { name: opt_text(self.name), user: self.user@, domain: self.domain@ }
    }
}

/// A mail that is ready to be sent.
pub struct OutgoingMail {
    pub from: MailParty,
    pub to: MailParty,
    pub subject: String,
    pub body: String,
}

/// What an [`OutgoingMail`] holds.
pub struct MailView {
    pub from: PartyView,
    pub to: PartyView,
    pub subject: Seq<char>,
    pub body: Seq<char>,
}

impl View for OutgoingMail {
    type V = MailView;

    open spec fn view(&self) -> MailView {
        MailView {
            from: self.from@,
            to: self.to@,
            subject: self.subject@,
            body: self.body@,
        }
    }
}

/// Why a notification cannot be made into a mail.
#[derive(Debug, Clone, Copy, PartialEq, Eq, Structural)]
pub enum MailError {
    /// The sender is not a mailbox.
    InvalidSender,
    /// The recipient is not a mailbox.
    InvalidRecipient,
}

/// The party that is named by what was read in a mailbox.
pub open spec fn party_in(mailbox: Option<(Option<Seq<char>>, Seq<char>, Seq<char>)>) -> Option<
    PartyView,
> {
    match mailbox {
        Some((name, user, domain)) => Some(PartyView { name, user, domain }),
        None => None,
    }
}

/// The mail with this text, from one party to the other; where one of them is missing, the
/// sender is missed first.
pub open spec fn mail_between(
    from: Option<PartyView>,
    to: Option<PartyView>,
    body: Seq<char>,
) -> Result<MailView, MailError> {
    match (from, to) {
        (None, _) => Err(MailError::InvalidSender),
        (Some(_), None) => Err(MailError::InvalidRecipient),
        (Some(from), Some(to)) => Ok(MailView { from, to, subject: SUBJECT@, body }),
    }
}

/// What a party holds, if there is one.
pub open spec fn party_view(party: Option<MailParty>) -> Option<PartyView> {
    match party {
        Some(party) => Some(party@),
        None => None,
    }
}

/// The mail, or why there is none.
pub open spec fn mail_view(r: Result<OutgoingMail, MailError>) -> Result<MailView, MailError> {
    match r {
        Ok(mail) => Ok(mail@),
        Err(e) => Err(e),
    }
}

/// `str::parse` for `lettre::message::Mailbox`: reads a display name, a user and a domain.
/// What is a mailbox and what is read in it depends on the text alone.
#[verifier::external_body]
fn parse_mailbox(text: &str) -> (r: Result<(Option<String>, String, String), AddressError>)
    ensures
        match r {
            Ok((name, user, domain)) => mailbox_in(text@) == Some(
                (opt_text(name), user@, domain@),
            ),
            Err(_) => mailbox_in(text@) is None,
        },
{
    let mailbox = text.parse::<lettre::message::Mailbox>()?;
    let user = mailbox.email.user().to_owned();
    let domain = mailbox.email.domain().to_owned();
    Ok((mailbox.name, user, domain))
}

/// Reads a mailbox.
pub fn read_party(text: &str) -> (r: Option<MailParty>)
    ensures
        party_view(r) == party_in(mailbox_in(text@)),
{
    match parse_mailbox(text) {
        Ok((name, user, domain)) => Some(MailParty { name, user, domain }),
        Err(_) => None,
    }
}

/// Makes a mail from one party to the other.
pub fn compose_email(from: Option<MailParty>, to: Option<MailParty>, body: String) -> (r: Result<
    OutgoingMail,
    MailError,
>)
    ensures
        mail_view(r) == mail_between(party_view(from), party_view(to), body@),
{
    match (from, to) {
        (None, _) => Err(MailError::InvalidSender),
        (Some(_), None) => Err(MailError::InvalidRecipient),
        (Some(from), Some(to)) => Ok(
            OutgoingMail { from, to, subject: SUBJECT.to_owned(), body },
        ),
    }
}

/// Makes a notification into a mail from the given sender.
pub fn prepare_email(from: &str, job: &EmailJob) -> (r: Result<OutgoingMail, MailError>)
    ensures
        mail_view(r) == mail_between(
            party_in(mailbox_in(from@)),
            party_in(mailbox_in(job@.to)),
            job@.body,
        ),
{
    let sender = read_party(from);
    let recipient = read_party(job.to.as_str());
    compose_email(sender, recipient, job.body.clone())
}

} // verus!
