//! What the bot decides between two calls of its transport: whether a message
//! is new, what a command is answered with, and how long to wait after an
//! error.  Sending and fetching are left to the caller.

use vstd::prelude::*;
use vstd::string::StringExecFns;
use crate::cursor::{match_len, to_chars, Cursor};
use crate::digits::{decimal_digits, decimal_text};
use crate::grammar::{get_grammar_string, spec_grammar, GRAMMAR_SOURCE};
use crate::spaceapi_client::{spec_basename, SpaceApiClient};
use crate::user_input_compiler::{compile, spec_compile, Input, InputView};

verus! {

/// The shortest wait after an error, in seconds.
pub const MIN_BACKOFF_SECONDS: u64 = 1;

/// The longest wait after an error, in seconds.
pub const MAX_BACKOFF_SECONDS: u64 = 128;

/// What the bot remembers from one update to the next.
#[derive(Debug)]
pub struct Session {
    last_processed_message_id: i64,
    backoff_seconds: u64,
}

/// The mathematical value of a [`Session`].
pub struct SessionView {
    pub last_processed_message_id: i64,
    pub backoff_seconds: u64,
}

/// Whether `seconds` is a wait that the bot can reach: the shortest wait,
/// doubled at most seven times.
pub open spec fn is_backoff(seconds: u64) -> bool {
    seconds == 1 || seconds == 2 || seconds == 4 || seconds == 8 || seconds == 16 || seconds == 32
        || seconds == 64 || seconds == 128
}

/// The wait that follows the wait `seconds`: twice as long, up to the
/// longest.
pub open spec fn next_backoff(seconds: u64) -> u64 {
    if seconds < MAX_BACKOFF_SECONDS {
        (2 * seconds) as u64
    } else {
        seconds
    }
}

impl View for Session {
    type V = SessionView;

    closed spec fn view(&self) -> SessionView {
        SessionView {
            last_processed_message_id: self.last_processed_message_id,
            backoff_seconds: self.backoff_seconds,
        }
    }
}

impl Session {
    #[verifier::type_invariant]
    spec fn well_formed(self) -> bool {
        is_backoff(self.backoff_seconds)
    }

    /// A session that has seen no message and no error.
    pub fn new() -> (session: Session)
        ensures
            session@ == (SessionView {
                last_processed_message_id: 0,
                backoff_seconds: MIN_BACKOFF_SECONDS,
            }),
    {
        Session { last_processed_message_id: 0, backoff_seconds: MIN_BACKOFF_SECONDS }
    }

    /// The identifier of the message that was processed last.
    pub fn last_processed_message_id(&self) -> (id: i64)
        ensures
            id == self@.last_processed_message_id,
    {
        self.last_processed_message_id
    }

    /// The seconds to wait after the next error: between the shortest and the
    /// longest wait.
    pub fn backoff_seconds(&self) -> (seconds: u64)
        ensures
            seconds == self@.backoff_seconds,
            is_backoff(seconds),
            MIN_BACKOFF_SECONDS <= seconds <= MAX_BACKOFF_SECONDS,
    {
        proof {
            use_type_invariant(self);
        }
        self.backoff_seconds
    }

    /// An update has arrived: the transport works again, and the wait is set
    /// back to the shortest.
    pub fn update_received(&mut self)
        ensures
            final(self)@ == (SessionView { backoff_seconds: MIN_BACKOFF_SECONDS, ..old(self)@ }),
    {
        self.backoff_seconds = MIN_BACKOFF_SECONDS;
    }

    /// Whether the message `message_id` is to be processed: it is, unless it
    /// is the message that was processed last.  A message that is processed
    /// is remembered.
    pub fn accept_message(&mut self, message_id: i64) -> (accepted: bool)
        ensures
            accepted == (message_id != old(self)@.last_processed_message_id),
            final(self)@ == (SessionView { last_processed_message_id: message_id, ..old(self)@ }),
    {
        proof {
            use_type_invariant(&*self);
        }
        let accepted = message_id != self.last_processed_message_id;
        self.last_processed_message_id = message_id;
        accepted
    }

    /// The transport has failed.  Returns the seconds to wait now; the next
    /// wait is twice as long, up to the longest.
    pub fn error_occurred(&mut self) -> (wait: u64)
        ensures
            wait == old(self)@.backoff_seconds,
            final(self)@ == (SessionView {
                backoff_seconds: next_backoff(old(self)@.backoff_seconds),
                ..old(self)@
            }),
    {
        proof {
            use_type_invariant(&*self);
        }
        let wait = self.backoff_seconds;
        if self.backoff_seconds < MAX_BACKOFF_SECONDS {
            self.backoff_seconds = self.backoff_seconds * 2;
        }
        wait
    }
}

/// The name by which the bot is addressed in a group.
pub open spec fn mention() -> Seq<char> {
    "@CoreDumpBot"@
}

/// The text without the places where `word` stands in it, read from left to
/// right.  An empty `word` stands nowhere.
pub open spec fn without(text: Seq<char>, word: Seq<char>) -> Seq<char>
    decreases text.len(),
{
    if text.len() == 0 || word.len() == 0 {
        text
    } else if word.is_prefix_of(text) {
        without(text.skip(word.len() as int), word)
    } else {
        seq![text[0]] + without(text.drop_first(), word)
    }
}

/// The text of a message without the name of the bot.
pub fn strip_mention(text: &str) -> (stripped: String)
    ensures
        stripped@ == without(text@, mention()),
{
    proof {
        reveal_strlit("@CoreDumpBot");
    }
    let buffer = to_chars(text);
    let mut cursor = Cursor::new(buffer.as_slice());
    let mut stripped = String::new();
    assert(stripped@ + without(cursor@, mention()) =~= without(text@, mention()));
    while cursor.len() > 0
        invariant
            mention().len() == 12,
            stripped@ + without(cursor@, mention()) == without(text@, mention()),
        decreases cursor@.len(),
    {
        let ghost before = cursor@;
        match match_len(&cursor, "@CoreDumpBot") {
            Some(n) => {
                cursor.advance(n);
            },
            None => {
                match cursor.next() {
                    Some(c) => {
                        stripped.push(c);
                        assert((stripped@.drop_last() + seq![c]) + without(cursor@, mention())
                            =~= stripped@.drop_last() + (seq![c] + without(cursor@, mention())));
                        assert(stripped@ =~= stripped@.drop_last() + seq![c]);
                    },
                    None => {},
                }
            },
        }
    }
    assert(stripped@ + Seq::<char>::empty() =~= stripped@);
    stripped
}

/// A picture to send: where it is fetched from, and what is written below
/// it.
#[derive(Debug, PartialEq)]
pub struct Photo {
    pub url: String,
    pub caption: String,
}

/// What the bot does in answer to a message.
#[derive(Debug, PartialEq)]
pub enum Reply {
    /// Nothing is sent.
    Nothing,
    /// A plain text is sent.
    Text(String),
    /// A text is sent as Markdown.
    Markdown(String),
    /// Each picture is fetched and sent.
    Photos(Vec<Photo>),
    /// The status of the space is fetched, and `status_reply` of what came
    /// back is sent.
    Status,
}

/// The mathematical value of a [`Photo`].
pub struct PhotoView {
    pub url: Seq<char>,
    pub caption: Seq<char>,
}

/// The mathematical value of a [`Reply`].
pub enum ReplyView {
    Nothing,
    Text(Seq<char>),
    Markdown(Seq<char>),
    Photos(Seq<PhotoView>),
    Status,
}

impl View for Photo {
    type V = PhotoView;

    open spec fn view(&self) -> PhotoView {
        PhotoView { url: self.url@, caption: self.caption@ }
    }
}

impl View for Reply {
    type V = ReplyView;

    open spec fn view(&self) -> ReplyView {
        match *self {
            Reply::Nothing => ReplyView::Nothing,
            Reply::Text(text) => ReplyView::Text(text@),
            Reply::Markdown(text) => ReplyView::Markdown(text@),
            Reply::Photos(photos) => ReplyView::Photos(Seq::new(photos@.len(), |i: int| photos@[i]@)),
            Reply::Status => ReplyView::Status,
        }
    }
}

/// The answer to `/help`.
pub open spec fn help_text() -> Seq<char> {
    "No such help \u{1F61C}\nuse /webcam for a snapshot of the 3D printer.\nuse /status for an update on people now present\nuse /grammar to receive the spec"@
}

/// The answer to `/start`.
pub open spec fn welcome_text() -> Seq<char> {
    "Welcome to CoredumpBot\nuse /help to see available commands."@
}

/// The answer to what the bot does not know.
pub open spec fn unknown_command_text() -> Seq<char> {
    "Unknown command. Try /help"@
}

/// The picture of the webcam at `url`: its caption is the last part of the
/// URL.
pub open spec fn photo_of(url: Seq<char>) -> PhotoView {
    PhotoView { url, caption: spec_basename(url) }
}

/// The answer to `/webcam`: all webcams, or the one that was asked for; a
/// text where there is no webcam with that index.
pub open spec fn webcam_reply(nth: Option<usize>, webcams: Seq<Seq<char>>) -> ReplyView {
    match nth {
        Some(n) => if n >= webcams.len() {
            ReplyView::Text(
                "You requested the webcam #"@ + decimal_digits(n as nat)
                    + ", but there are just "@ + decimal_digits(webcams.len()),
            )
        } else {
            ReplyView::Photos(seq![photo_of(webcams[n as int])])
        },
        None => ReplyView::Photos(Seq::new(webcams.len(), |i: int| photo_of(webcams[i]))),
    }
}

/// The answer to a command.  `is_user` says that the message came from one
/// user and not from a group; only a user is told of what the bot does not
/// understand.
pub open spec fn spec_reply(
    input: InputView,
    is_user: bool,
    webcams: Seq<Seq<char>>,
    version: Seq<char>,
) -> ReplyView {
    match input {
        InputView::WebCam { nth } => webcam_reply(nth, webcams),
        InputView::Help => ReplyView::Text(help_text()),
        InputView::Status => ReplyView::Status,
        InputView::Start => ReplyView::Text(welcome_text()),
        InputView::Version => ReplyView::Text("Version: "@ + version),
        InputView::Grammar => ReplyView::Markdown(spec_grammar(GRAMMAR_SOURCE@)),
        InputView::InvalidSyntax(message) => if is_user {
            ReplyView::Text("Invalid syntax: "@ + message + "\ntry /grammar"@)
        } else {
            ReplyView::Nothing
        },
        _ => if is_user {
            ReplyView::Text(unknown_command_text())
        } else {
            ReplyView::Nothing
        },
    }
}

/// The texts of the strings in `strings`.
pub open spec fn texts(strings: Seq<String>) -> Seq<Seq<char>> {
    Seq::new(strings.len(), |i: int| strings[i]@)
}

/// The picture of the webcam at `url`.
fn photo(url: &String) -> (photo: Photo)
    ensures
        photo@ == photo_of(url@),
{
    let client = SpaceApiClient::new();
    let caption = client.basename(url).to_owned();
    Photo { url: url.clone(), caption }
}

/// The answer to `/webcam`.
pub fn plan_webcam_reply(nth: Option<usize>, webcams: &Vec<String>) -> (reply: Reply)
    ensures
        reply@ == webcam_reply(nth, texts(webcams@)),
{
    let mut photos: Vec<Photo> = Vec::new();
    match nth {
        Some(n) => {
            if n >= webcams.len() {
                let mut text = "You requested the webcam #".to_owned();
                text.append(decimal_text(n as u64).as_str());
                text.append(", but there are just ");
                text.append(decimal_text(webcams.len() as u64).as_str());
                return Reply::Text(text);
            }
            photos.push(photo(&webcams[n]));
            assert(Seq::new(photos@.len(), |i: int| photos@[i]@) =~= seq![
                photo_of(texts(webcams@)[n as int]),
            ]);
        },
        None => {
            let mut i: usize = 0;
            while i < webcams.len()
                invariant
                    i <= webcams.len(),
                    photos@.len() == i,
                    forall|k: int| 0 <= k < i ==> (#[trigger] photos@[k])@ == photo_of(webcams@[k]@),
                decreases webcams.len() - i,
            {
                photos.push(photo(&webcams[i]));
                i = i + 1;
            }
            assert(Seq::new(photos@.len(), |i: int| photos@[i]@) =~= Seq::new(
                texts(webcams@).len(),
                |i: int| photo_of(texts(webcams@)[i]),
            ));
        },
    }
    Reply::Photos(photos)
}

/// Decides what is done in answer to a command.
pub fn plan_reply(input: &Input, is_user: bool, webcams: &Vec<String>, version: &str) -> (reply:
    Reply)
    ensures
        reply@ == spec_reply(input@, is_user, texts(webcams@), version@),
{
    match input {
        Input::WebCam { nth } => plan_webcam_reply(*nth, webcams),
        Input::Help => Reply::Text(
            "No such help \u{1F61C}\nuse /webcam for a snapshot of the 3D printer.\nuse /status for an update on people now present\nuse /grammar to receive the spec".to_owned(),
        ),
        Input::Status => Reply::Status,
        Input::Start => Reply::Text(
            "Welcome to CoredumpBot\nuse /help to see available commands.".to_owned(),
        ),
        Input::Version => {
            let mut text = "Version: ".to_owned();
            text.append(version);
            Reply::Text(text)
        },
        Input::Grammar => Reply::Markdown(get_grammar_string()),
        Input::InvalidSyntax(message) => {
            if is_user {
                let mut text = "Invalid syntax: ".to_owned();
                text.append(message.as_str());
                text.append("\ntry /grammar");
                Reply::Text(text)
            } else {
                Reply::Nothing
            }
        },
        _ => plan_unknown_reply(is_user),
    }
}

/// The answer to a message that holds no command that the bot knows.
pub fn plan_unknown_reply(is_user: bool) -> (reply: Reply)
    ensures
        reply@ == if is_user {
            ReplyView::Text(unknown_command_text())
        } else {
            ReplyView::Nothing
        },
{
    if is_user {
        Reply::Text("Unknown command. Try /help".to_owned())
    } else {
        Reply::Nothing
    }
}

/// The answer to a message.  A message that was processed last time is not
/// answered again.  The text of a message, where it has one, is compiled
/// without the name of the bot; a message without text holds no command.
pub open spec fn spec_message_reply(
    last_processed_message_id: i64,
    message_id: i64,
    text: Option<Seq<char>>,
    is_user: bool,
    webcams: Seq<Seq<char>>,
    version: Seq<char>,
) -> ReplyView {
    if message_id == last_processed_message_id {
        ReplyView::Nothing
    } else {
        match text {
            Some(text) => spec_reply(
                spec_compile(without(text, mention())),
                is_user,
                webcams,
                version,
            ),
            None => if is_user {
                ReplyView::Text(unknown_command_text())
            } else {
                ReplyView::Nothing
            },
        }
    }
}

/// The text that a string slice holds, if there is one.
pub open spec fn text_of(text: Option<&str>) -> Option<Seq<char>> {
    match text {
        Some(text) => Some(text@),
        None => None,
    }
}

/// Decides what is done in answer to a message, and remembers the message.
pub fn plan_message(
    session: &mut Session,
    message_id: i64,
    text: Option<&str>,
    is_user: bool,
    webcams: &Vec<String>,
    version: &str,
) -> (reply: Reply)
    ensures
        reply@ == spec_message_reply(
            old(session)@.last_processed_message_id,
            message_id,
            text_of(text),
            is_user,
            texts(webcams@),
            version@,
        ),
        final(session)@ == (SessionView { last_processed_message_id: message_id, ..old(session)@ }),
{
    if !session.accept_message(message_id) {
        return Reply::Nothing;
    }
    match text {
        Some(text) => {
            let line = strip_mention(text);
            let input = compile(line.as_str());
            plan_reply(&input, is_user, webcams, version)
        },
        None => plan_unknown_reply(is_user),
    }
}

/// The text that is sent for the status of the space: the report, or the
/// error after an apology.
pub open spec fn spec_status_reply(status: Result<String, String>) -> Seq<char> {
    match status {
        Ok(report) => report@,
        Err(error) => "An error occurred \u{1F615}\n"@ + error@,
    }
}

/// The text that is sent for the status of the space.
pub fn status_reply(status: Result<String, String>) -> (text: String)
    ensures
        text@ == spec_status_reply(status),
{
    match status {
        Ok(report) => report,
        Err(error) => {
            let mut text = "An error occurred \u{1F615}\n".to_owned();
            text.append(error.as_str());
            text
        },
    }
}

} // verus!
