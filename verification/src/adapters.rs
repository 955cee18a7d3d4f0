//! Where messages come from: the sources, what was read from them, and what they refuse.
pub use crate::chats::{ChatSummary, SourceChat};

use crate::chats::{attach_latest, chats_with_latest, dated, is_chat_listing};
use crate::text::{lossy_text, same_text, trim, trimmed, utf8_lossy};
use crate::types::RawMessage;
use std::path::PathBuf;
use vstd::prelude::*;

verus! {

/// `std::path::PathBuf`, carried and not looked into.
#[verifier::external_type_specification]
#[verifier::external_body]
pub struct ExPathBuf(std::path::PathBuf);

/// How much of a source could be read.
#[derive(Debug, Clone, Copy, PartialEq, Eq, Structural)]
pub struct SourceCoverage {
    pub available_chats: usize,
    pub unavailable_chats: usize,
}

/// Why a source gave nothing.
#[derive(Debug, PartialEq, Eq)]
pub enum SourceError {
    Kakao(String),
    Kakaocli(String),
    Database(String),
    HomeDirUnavailable,
    NotRead,
}

impl Clone for SourceError {
    fn clone(&self) -> (r: Self)
        ensures
            r == *self,
    {
        match self {
            SourceError::Kakao(text) => SourceError::Kakao(text.clone()),
            SourceError::Kakaocli(text) => SourceError::Kakaocli(text.clone()),
            SourceError::Database(text) => SourceError::Database(text.clone()),
            SourceError::HomeDirUnavailable => SourceError::HomeDirUnavailable,
            SourceError::NotRead => SourceError::NotRead,
        }
    }
}

impl SourceError {
    /// The error in words.
    pub open spec fn text(self) -> Seq<char> {
        match self {
            SourceError::Kakao(text) => text@,
            SourceError::Kakaocli(text) => text@,
            SourceError::Database(text) => text@,
            SourceError::HomeDirUnavailable => "home directory is unavailable"@,
            SourceError::NotRead => "the source was not read yet"@,
        }
    }

    /// The error in words.
    pub fn message(&self) -> (r: String)
        ensures
            r@ == self.text(),
    {
        match self {
            SourceError::Kakao(text) => text.clone(),
            SourceError::Kakaocli(text) => text.clone(),
            SourceError::Database(text) => text.clone(),
            SourceError::HomeDirUnavailable => "home directory is unavailable".to_owned(),
            SourceError::NotRead => "the source was not read yet".to_owned(),
        }
    }
}

/// A source of chats and messages.
pub trait SourceAdapter {
    fn chats(&self) -> Result<Vec<ChatSummary>, SourceError>;

    fn messages(&self) -> Result<Vec<RawMessage>, SourceError>;

    fn coverage(&self) -> Option<SourceCoverage>;
}

/// What was read from a KakaoTalk database on macOS.
#[derive(Debug)]
pub struct ReaderOutput {
    pub chats: Vec<SourceChat>,
    pub messages: Vec<RawMessage>,
}

/// What was read from the KakaoTalk databases on Windows, and how many rooms were open to it.
#[derive(Debug)]
pub struct ReadOutput {
    pub chats: Vec<ChatSummary>,
    pub messages: Vec<RawMessage>,
    pub available: usize,
    pub locked: usize,
}

fn copy_messages(messages: &Vec<RawMessage>) -> (r: Vec<RawMessage>)
    ensures
        r@ == messages@,
{
    let mut r: Vec<RawMessage> = Vec::new();
    for i in 0..messages.len()
        invariant
            r@ =~= messages@.take(i as int),
    {
        r.push(messages[i].clone());
    }
    assert(messages@.take(messages@.len() as int) =~= messages@);
    r
}

fn copy_chats(chats: &Vec<ChatSummary>) -> (r: Vec<ChatSummary>)
    ensures
        r@ == chats@,
{
    let mut r: Vec<ChatSummary> = Vec::new();
    for i in 0..chats.len()
        invariant
            r@ =~= chats@.take(i as int),
    {
        r.push(chats[i].clone());
    }
    assert(chats@.take(chats@.len() as int) =~= chats@);
    r
}

/// A file of messages, one JSON object per line.
#[derive(Debug)]
pub struct FixtureAdapter {
    path: PathBuf,
    read: Option<Vec<RawMessage>>,
}

impl FixtureAdapter {
    /// Where the file is.
    pub closed spec fn location(&self) -> PathBuf {
        self.path
    }

    /// The messages that were read, once they were.
    pub closed spec fn held(&self) -> Option<Seq<RawMessage>> {
        match self.read {
            Some(messages) => Some(messages@),
            None => None,
        }
    }

    /// An adapter for the file at `path`, not read yet.
    pub fn new(path: PathBuf) -> (r: Self)
        ensures
            r.location() == path,
            r.held() is None,
    {
        FixtureAdapter { path, read: None }
    }

    /// Where the file is.
    pub fn path(&self) -> (r: &PathBuf)
        ensures
            *r == self.location(),
    {
        &self.path
    }

    /// Takes in what the file holds now.
    pub fn load(&mut self, messages: Vec<RawMessage>)
        ensures
            final(self).location() == old(self).location(),
            final(self).held() == Some(messages@),
    {
        self.read = Some(messages);
    }
}

impl SourceAdapter for FixtureAdapter {
    fn chats(&self) -> (r: Result<Vec<ChatSummary>, SourceError>)
        ensures
            match self.held() {
                Some(messages) => r is Ok && is_chat_listing(messages, r->Ok_0@),
                None => r == Err::<Vec<ChatSummary>, _>(SourceError::NotRead),
            },
    {
        match &self.read {
            Some(messages) => Ok(chats_with_latest(messages.as_slice())),
            None => Err(SourceError::NotRead),
        }
    }

    fn messages(&self) -> (r: Result<Vec<RawMessage>, SourceError>)
        ensures
            match self.held() {
                Some(messages) => r is Ok && r->Ok_0@ == messages,
                None => r == Err::<Vec<RawMessage>, _>(SourceError::NotRead),
            },
    {
        match &self.read {
            Some(messages) => Ok(copy_messages(messages)),
            None => Err(SourceError::NotRead),
        }
    }

    fn coverage(&self) -> (r: Option<SourceCoverage>)
        ensures
            r is None,
    {
        None
    }
}

/// The encrypted KakaoTalk database on macOS. One read is shared between `chats` and `messages`:
/// the first is kept, so that a caller of both pays for decryption once.
#[derive(Debug)]
pub struct MacosAdapter {
    home: PathBuf,
    data_dir: PathBuf,
    cached: Option<ReaderOutput>,
}

impl MacosAdapter {
    /// The home directory and the data directory.
    pub closed spec fn places(&self) -> (PathBuf, PathBuf) {
        (self.home, self.data_dir)
    }

    /// What was read, once it was.
    pub closed spec fn held(&self) -> Option<ReaderOutput> {
        self.cached
    }

    /// Build an adapter for the given `home` and `data_dir`, not read yet.
    pub fn new(home: PathBuf, data_dir: PathBuf) -> (r: Self)
        ensures
            r.places() == (home, data_dir),
            r.held() is None,
    {
        MacosAdapter { home, data_dir, cached: None }
    }

    /// The home directory.
    pub fn home(&self) -> (r: &PathBuf)
        ensures
            *r == self.places().0,
    {
        &self.home
    }

    /// The data directory.
    pub fn data_dir(&self) -> (r: &PathBuf)
        ensures
            *r == self.places().1,
    {
        &self.data_dir
    }

    /// Whether the database was read already.
    pub fn is_read(&self) -> (r: bool)
        ensures
            r == (self.held() is Some),
    {
        self.cached.is_some()
    }

    /// Takes in a read of the database. The first that succeeds is kept; a failure is not, so
    /// that a transient one can be retried.
    pub fn load(&mut self, read: Result<ReaderOutput, SourceError>) -> (r: Result<(), SourceError>)
        ensures
            final(self).places() == old(self).places(),
            match old(self).held() {
                Some(output) => r is Ok && final(self).held() == Some(output),
                None => match read {
                    Ok(output) => r is Ok && final(self).held() == Some(output),
                    Err(error) => r == Err::<(), _>(error) && final(self).held() is None,
                },
            },
    {
        if self.cached.is_some() {
            return Ok(());
        }
        match read {
            Ok(output) => {
                self.cached = Some(output);
                Ok(())
            },
            Err(error) => Err(error),
        }
    }
}

impl SourceAdapter for MacosAdapter {
    fn chats(&self) -> (r: Result<Vec<ChatSummary>, SourceError>)
        ensures
            match self.held() {
                Some(output) => r is Ok && r->Ok_0@ == output.chats@.map_values(
                    |chat: SourceChat| dated(output.messages@, chat),
                ),
                None => r == Err::<Vec<ChatSummary>, _>(SourceError::NotRead),
            },
    {
        match &self.cached {
            Some(output) => Ok(attach_latest(&output.chats, output.messages.as_slice())),
            None => Err(SourceError::NotRead),
        }
    }

    fn messages(&self) -> (r: Result<Vec<RawMessage>, SourceError>)
        ensures
            match self.held() {
                Some(output) => r is Ok && r->Ok_0@ == output.messages@,
                None => r == Err::<Vec<RawMessage>, _>(SourceError::NotRead),
            },
    {
        match &self.cached {
            Some(output) => Ok(copy_messages(&output.messages)),
            None => Err(SourceError::NotRead),
        }
    }

    fn coverage(&self) -> (r: Option<SourceCoverage>)
        ensures
            r is None,
    {
        None
    }
}

pub const NO_READABLE_ROOM: &'static str =
    "No Windows room databases are readable. Open a room in KakaoTalk and retry.";

/// The KakaoTalk databases on Windows, of which some rooms may be locked.
#[derive(Debug)]
pub struct WindowsAdapter {
    cached: Option<ReadOutput>,
}

impl Default for WindowsAdapter {
    fn default() -> (r: Self)
        ensures
            r.held() is None,
    {
        WindowsAdapter { cached: None }
    }
}

impl WindowsAdapter {
    /// What was read, once it was.
    pub closed spec fn held(&self) -> Option<ReadOutput> {
        self.cached
    }

    /// Whether the databases were read already.
    pub fn is_read(&self) -> (r: bool)
        ensures
            r == (self.held() is Some),
    {
        self.cached.is_some()
    }

    /// Takes in a read of the databases. The first that succeeds is kept; a failure is not.
    pub fn load(&mut self, read: Result<ReadOutput, SourceError>) -> (r: Result<(), SourceError>)
        ensures
            match old(self).held() {
                Some(output) => r is Ok && final(self).held() == Some(output),
                None => match read {
                    Ok(output) => r is Ok && final(self).held() == Some(output),
                    Err(error) => r == Err::<(), _>(error) && final(self).held() is None,
                },
            },
    {
        if self.cached.is_some() {
            return Ok(());
        }
        match read {
            Ok(output) => {
                self.cached = Some(output);
                Ok(())
            },
            Err(error) => Err(error),
        }
    }
}

impl SourceAdapter for WindowsAdapter {
    fn chats(&self) -> (r: Result<Vec<ChatSummary>, SourceError>)
        ensures
            match self.held() {
                Some(output) => r is Ok && r->Ok_0@ == output.chats@,
                None => r == Err::<Vec<ChatSummary>, _>(SourceError::NotRead),
            },
    {
        match &self.cached {
            Some(output) => Ok(copy_chats(&output.chats)),
            None => Err(SourceError::NotRead),
        }
    }

    /// The messages of the open rooms; where every room is locked that is an error, not an empty
    /// success.
    fn messages(&self) -> (r: Result<Vec<RawMessage>, SourceError>)
        ensures
            match self.held() {
                Some(output) => if output.available == 0 && output.locked > 0 {
                    r matches Err(SourceError::Kakao(text)) && text@ == NO_READABLE_ROOM@
                } else {
                    r is Ok && r->Ok_0@ == output.messages@
                },
                None => r == Err::<Vec<RawMessage>, _>(SourceError::NotRead),
            },
    {
        match &self.cached {
            Some(output) => if output.available == 0 && output.locked > 0 {
                Err(SourceError::Kakao(NO_READABLE_ROOM.to_owned()))
            } else {
                Ok(copy_messages(&output.messages))
            },
            None => Err(SourceError::NotRead),
        }
    }

    fn coverage(&self) -> (r: Option<SourceCoverage>)
        ensures
            r == match self.held() {
                Some(output) => Some(
                    SourceCoverage {
                        available_chats: output.available,
                        unavailable_chats: output.locked,
                    },
                ),
                None => None,
            },
    {
        match &self.cached {
            Some(output) => Some(
                SourceCoverage {
                    available_chats: output.available,
                    unavailable_chats: output.locked,
                },
            ),
            None => None,
        }
    }
}

pub const NO_STDERR: &'static str =
    "no stderr output (run `kakaocli auth` to check database access)";

/// The `kakaocli` program.
#[derive(Debug, Clone, Copy)]
pub struct KakaocliAdapter;

impl KakaocliAdapter {
    /// The error of a program that could not be started.
    pub fn missing(cause: &str) -> (r: SourceError)
        ensures
            r matches SourceError::Kakaocli(text) && text@
                == "kakaocli not found on PATH; install kakaocli or ensure it is executable ("@
                + cause@ + ")"@,
    {
        let mut text: String =
            "kakaocli not found on PATH; install kakaocli or ensure it is executable (".to_owned();
        text.append(cause);
        text.append(")");
        SourceError::Kakaocli(text)
    }

    /// The error of a program that failed: what it wrote to its error output, if anything.
    pub fn failure(command: &str, status: &str, stderr: &[u8]) -> (r: SourceError)
        ensures
            r matches SourceError::Kakaocli(text) && text@ == "kakaocli "@ + command@
                + " failed ("@ + status@ + "): "@ + failure_detail(
                trimmed(utf8_lossy(stderr@)),
            ),
    {
        let detail: String = trim(lossy_text(stderr).as_str());
        let mut text: String = "kakaocli ".to_owned();
        text.append(command);
        text.append(" failed (");
        text.append(status);
        text.append("): ");
        if detail.as_str().is_empty() {
            text.append(NO_STDERR);
        } else {
            text.append(detail.as_str());
        }
        SourceError::Kakaocli(text)
    }

    /// The error of output that is not what was asked for.
    pub fn invalid_output(command: &str, cause: &str) -> (r: SourceError)
        ensures
            r matches SourceError::Kakaocli(text) && text@ == "kakaocli "@ + command@
                + " returned invalid JSON: "@ + cause@,
    {
        let mut text: String = "kakaocli ".to_owned();
        text.append(command);
        text.append(" returned invalid JSON: ");
        text.append(cause);
        SourceError::Kakaocli(text)
    }
}

/// What is said of a program that failed: its own words, or where to look.
pub open spec fn failure_detail(words: Seq<char>) -> Seq<char> {
    if words.len() == 0 {
        NO_STDERR@
    } else {
        words
    }
}

/// The sources that there are.
#[derive(Debug, Clone, Copy, PartialEq, Eq, Structural)]
pub enum SourceKind {
    Fixture,
    Kakaocli,
    Windows,
    Macos,
}

/// Why a source cannot be used.
#[derive(Debug, PartialEq, Eq)]
pub enum SourceRefusal {
    FixtureNeedsPath,
    WindowsOnly,
    MacosUnavailable,
    Unsupported(String),
}

impl SourceRefusal {
    /// The refusal in words.
    pub open spec fn text(self) -> Seq<char> {
        match self {
            SourceRefusal::FixtureNeedsPath => "fixture source requires a JSONL path"@,
            SourceRefusal::WindowsOnly => "The Windows source must run on Windows with KakaoTalk installed"@,
            SourceRefusal::MacosUnavailable => "The macOS source is unavailable on Windows; use --source windows"@,
            SourceRefusal::Unsupported(source) => "unsupported source adapter: "@ + source@,
        }
    }

    /// The refusal in words.
    pub fn message(&self) -> (r: String)
        ensures
            r@ == self.text(),
    {
        match self {
            SourceRefusal::FixtureNeedsPath => "fixture source requires a JSONL path".to_owned(),
            SourceRefusal::WindowsOnly => "The Windows source must run on Windows with KakaoTalk installed".to_owned(),
            SourceRefusal::MacosUnavailable => "The macOS source is unavailable on Windows; use --source windows".to_owned(),
            SourceRefusal::Unsupported(source) => {
                let mut text: String = "unsupported source adapter: ".to_owned();
                text.append(source.as_str());
                text
            },
        }
    }
}

/// The source of a name on this platform: `kakao` is the platform's own.
pub open spec fn named_source(source: Seq<char>, on_windows: bool) -> Option<SourceKind> {
    if source == "fixture"@ {
        Some(SourceKind::Fixture)
    } else if source == "kakaocli"@ {
        Some(SourceKind::Kakaocli)
    } else if on_windows && (source == "windows"@ || source == "kakao"@) {
        Some(SourceKind::Windows)
    } else if !on_windows && (source == "macos"@ || source == "kakao"@) {
        Some(SourceKind::Macos)
    } else {
        None
    }
}

/// Which source a name stands for on this platform.
pub fn adapter_for_source(source: &str, has_path: bool, on_windows: bool) -> (r: Result<
    SourceKind,
    SourceRefusal,
>)
    ensures
        match named_source(source@, on_windows) {
            Some(kind) => if kind == SourceKind::Fixture && !has_path {
                r == Err::<SourceKind, _>(SourceRefusal::FixtureNeedsPath)
            } else {
                r == Ok::<_, SourceRefusal>(kind)
            },
            None => if source@ == "windows"@ {
                r == Err::<SourceKind, _>(SourceRefusal::WindowsOnly)
            } else if source@ == "macos"@ {
                r == Err::<SourceKind, _>(SourceRefusal::MacosUnavailable)
            } else {
                r matches Err(SourceRefusal::Unsupported(name)) && name@ == source@
            },
        },
{
    if same_text(source, "fixture") {
        if has_path {
            Ok(SourceKind::Fixture)
        } else {
            Err(SourceRefusal::FixtureNeedsPath)
        }
    } else if same_text(source, "kakaocli") {
        Ok(SourceKind::Kakaocli)
    } else if on_windows && (same_text(source, "windows") || same_text(source, "kakao")) {
        Ok(SourceKind::Windows)
    } else if !on_windows && (same_text(source, "macos") || same_text(source, "kakao")) {
        Ok(SourceKind::Macos)
    } else if same_text(source, "windows") {
        Err(SourceRefusal::WindowsOnly)
    } else if same_text(source, "macos") {
        Err(SourceRefusal::MacosUnavailable)
    } else {
        Err(SourceRefusal::Unsupported(source.to_owned()))
    }
}

/// Each name stands for one source: two names are the same everywhere, two belong to one platform
/// each, and one stands for whichever platform it is.
pub proof fn lemma_names_of_sources(source: Seq<char>, on_windows: bool)
    ensures
        named_source(source, on_windows) == Some(SourceKind::Fixture) <==> source == "fixture"@,
        named_source(source, on_windows) == Some(SourceKind::Kakaocli) <==> source == "kakaocli"@,
        named_source(source, on_windows) == Some(SourceKind::Windows) <==> on_windows && (source
            == "windows"@ || source == "kakao"@),
        named_source(source, on_windows) == Some(SourceKind::Macos) <==> !on_windows && (source
            == "macos"@ || source == "kakao"@),
        source == "kakao"@ ==> named_source(source, on_windows) is Some,
        source == "macos"@ && on_windows ==> named_source(source, on_windows) is None,
        source == "windows"@ && !on_windows ==> named_source(source, on_windows) is None,
{
    reveal_strlit("fixture");
    reveal_strlit("kakaocli");
    reveal_strlit("windows");
    reveal_strlit("macos");
    reveal_strlit("kakao");
    assert("fixture"@[0] == 'f' && "windows"@[0] == 'w' && "macos"@[0] == 'm');
    assert("kakaocli"@[0] == 'k' && "kakao"@[0] == 'k');
    assert("kakaocli"@.len() != "kakao"@.len());
}

/// What is said of a failure is never empty, and is the program's own words where it gave any.
pub proof fn lemma_failure_has_words(words: Seq<char>)
    ensures
        failure_detail(words).len() > 0,
        words.len() > 0 ==> failure_detail(words) == words,
{
    reveal_strlit("no stderr output (run `kakaocli auth` to check database access)");
}

/// An error of a source keeps the words that it was made with.
pub proof fn lemma_source_error_keeps_its_words(words: String)
    ensures
        SourceError::Kakao(words).text() == words@,
        SourceError::Kakaocli(words).text() == words@,
        SourceError::Database(words).text() == words@,
        SourceError::HomeDirUnavailable.text().len() > 0,
        SourceError::NotRead.text().len() > 0,
        SourceError::NotRead.text() != SourceError::HomeDirUnavailable.text(),
{
    reveal_strlit("home directory is unavailable");
    reveal_strlit("the source was not read yet");
    assert("home directory is unavailable"@[0] == 'h');
    assert("the source was not read yet"@[0] == 't');
}

/// A refused source is named at the end of the refusal.
pub proof fn lemma_refusal_names_the_source(source: String)
    ensures
        SourceRefusal::Unsupported(source).text().len() >= source@.len(),
        SourceRefusal::Unsupported(source).text().skip(
            SourceRefusal::Unsupported(source).text().len() - source@.len(),
        ) == source@,
{
    let opening = "unsupported source adapter: "@;
    assert((opening + source@).skip(opening.len() as int) =~= source@);
}

} // verus!
