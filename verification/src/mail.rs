//! What the mail parsers read out of a raw message: its header fields, its
//! plain-text body and its subject.

use vstd::prelude::*;

verus! {

/// `mailparse::MailParseError`, handed on as it comes; nothing is said of
/// what it holds.
#[verifier::external_type_specification]
#[verifier::external_body]
pub struct ExMailParseError(mailparse::MailParseError);

/// The header fields that `mailparse` reads at the start of `raw`, name and
/// decoded value of each in the order written, or `None` where it finds the
/// header block malformed.
pub uninterp spec fn parsed_headers(raw: Seq<u8>) -> Option<Seq<(Seq<char>, Seq<char>)>>;

/// The text of the first text body part that `mail_parser` finds in `raw`,
/// or `None` where it finds no message or no such part.
pub uninterp spec fn extracted_body_text(raw: Seq<u8>) -> Option<Seq<char>>;

/// The subject that `mail_parser` reads from `raw`, if it finds one.
pub uninterp spec fn parsed_subject(raw: Seq<u8>) -> Option<Seq<char>>;

/// `mailparse::parse_headers`, with each field handed out as the pair of
/// `MailHeader::get_key` and `MailHeader::get_value`. The fields depend on
/// the bytes alone; the call fails exactly where `parsed_headers` is `None`.
#[verifier::external_body]
pub(crate) fn parse_headers(raw: &[u8]) -> (r: Result<
    Vec<(String, String)>,
    mailparse::MailParseError,
>)
    ensures
        match r {
            Ok(fields) => parsed_headers(raw@) == Some(fields.deep_view()),
            Err(_) => parsed_headers(raw@) is None,
        },
{
    let (headers, _) = mailparse::parse_headers(raw)?;
    Ok(headers.iter().map(|h| (h.get_key(), h.get_value())).collect())
}

/// The `Display` text of a `mailparse::MailParseError`.
#[verifier::external_body]
pub(crate) fn parse_error_text(error: &mailparse::MailParseError) -> String {
    error.to_string()
}

/// `mail_parser::MessageParser::parse` followed by `Message::body_text(0)`.
/// The text depends on the bytes alone.
#[verifier::external_body]
pub(crate) fn body_text(raw: &[u8]) -> (r: Option<String>)
    ensures
        r.deep_view() == extracted_body_text(raw@),
{
    let message = mail_parser::MessageParser::default().parse(raw)?;
    message.body_text(0).map(|text| text.into_owned())
}

/// `mail_parser::MessageParser::parse` followed by `Message::subject`.
/// The subject depends on the bytes alone.
#[verifier::external_body]
pub(crate) fn subject(raw: &[u8]) -> (r: Option<String>)
    ensures
        r.deep_view() == parsed_subject(raw@),
{
    let message = mail_parser::MessageParser::default().parse(raw)?;
    message.subject().map(|text| text.to_string())
}

} // verus!
