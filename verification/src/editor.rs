//! The editor state machine: one document, the last error if any, and the
//! update step that consumes messages and says what asynchronous work the
//! surrounding program should start. The outcomes of that work (the chosen
//! path, the read file or its failure) come back in as later messages, so
//! overlapping loads are never cancelled: whichever result is handled last
//! determines the final content.

use vstd::prelude::*;

use crate::document::{
    apply_spec, doc_from_text, empty_doc, lemma_apply_spec_wf, lemma_doc_from_text_wf, DocView,
    DocumentContent, EditAction,
};

verus! {

/// A platform-independent classification of a failed file read.
#[derive(Clone, Copy, Debug, PartialEq, Eq, Structural)]
pub enum IoErrorKind {
    NotFound,
    PermissionDenied,
    Other,
}

/// The last remembered failure: the user cancelled the file dialog, or a
/// file read failed with a classified kind.
#[derive(Clone, Copy, Debug, PartialEq, Eq, Structural)]
pub enum EditorError {
    DialogClosed,
    IO(IoErrorKind),
}

/// A message the state machine consumes: an edit from the user, the request
/// to open a file, or the delivered outcome of a load.
pub enum Message {
    Edit(EditAction),
    Open,
    FileOpened(Result<String, EditorError>),
}

/// The abstraction of a [`Message`]: the loaded text as a character sequence.
pub ghost enum MessageView {
    Edit(EditAction),
    Open,
    FileOpened(Result<Seq<char>, EditorError>),
}

impl View for Message {
    type V = MessageView;

    open spec fn view(&self) -> MessageView {
        match self {
            Message::Edit(a) => MessageView::Edit(*a),
            Message::Open => MessageView::Open,
            Message::FileOpened(Ok(t)) => MessageView::FileOpened(Ok(t@)),
            Message::FileOpened(Err(e)) => MessageView::FileOpened(Err(*e)),
        }
    }
}

/// The asynchronous work a step asks the surrounding program to start:
/// nothing, showing the file picker and loading the chosen file, or loading
/// a fixed path. The program performs it and posts the outcome back as a
/// [`Message::FileOpened`].
#[derive(Clone, Debug, PartialEq, Eq)]
pub enum Command {
    Idle,
    PickAndLoad,
    Load(String),
}

/// The abstraction of a [`Command`]: the path as a character sequence.
pub ghost enum CommandView {
    Idle,
    PickAndLoad,
    Load(Seq<char>),
}

impl View for Command {
    type V = CommandView;

    open spec fn view(&self) -> CommandView {
        match self {
            Command::Idle => CommandView::Idle,
            Command::PickAndLoad => CommandView::PickAndLoad,
            Command::Load(p) => CommandView::Load(p@),
        }
    }
}

/// The abstraction of the whole editor: the document model and the last
/// remembered error.
#[verifier::ext_equal]
pub ghost struct EditorView {
    pub doc: DocView,
    pub error: Option<EditorError>,
}

impl EditorView {
    /// The editor invariant: its document is well formed.
    pub open spec fn wf(self) -> bool {
        self.doc.wf()
    }
}

/// The pure state-transition table: what one message does to the editor, and
/// what asynchronous work it asks for.
///
/// An edit goes to the document; `Open` changes nothing now and asks for a
/// pick-and-load; a delivered text replaces the content wholesale (the last
/// error is deliberately kept, never cleared); a delivered failure replaces
/// the last error and leaves the content untouched.
pub open spec fn update_spec(s: EditorView, m: MessageView) -> (EditorView, CommandView) {
    match m {
        MessageView::Edit(a) => (
            EditorView { doc: apply_spec(s.doc, a), error: s.error },
            CommandView::Idle,
        ),
        MessageView::Open => (s, CommandView::PickAndLoad),
        MessageView::FileOpened(r) => match r {
            Ok(text) => (
                EditorView { doc: doc_from_text(text), error: s.error },
                CommandView::Idle,
            ),
            Err(e) => (
                EditorView { doc: s.doc, error: Some(e) },
                CommandView::Idle,
            ),
        },
    }
}

/// The editor state machine. It owns one document and the last error, is
/// mutated only by [`EditorState::update`], and never runs asynchronous work
/// itself: each step returns the [`Command`] to perform.
pub struct EditorState {
    content: DocumentContent,
    error: Option<EditorError>,
}

impl View for EditorState {
    type V = EditorView;

    closed spec fn view(&self) -> EditorView {
        EditorView { doc: self.content@, error: self.error }
    }
}

impl EditorState {
    /// A fresh editor: an empty document, no error, and the startup command
    /// asking for a load of the given default path.
    pub fn new(default_path: String) -> (r: (EditorState, Command))
        ensures
            r.0@.doc == empty_doc(),
            r.0@.error is None,
            r.0@.wf(),
            r.1@ == CommandView::Load(default_path@),
    {
        let state = EditorState { content: DocumentContent::new(), error: None };
        (state, Command::Load(default_path))
    }

    /// One step of the message loop: applies the message to the state exactly
    /// as [`update_spec`] says, and returns the asynchronous work to start.
    pub fn update(&mut self, msg: Message) -> (cmd: Command)
        requires
            old(self)@.wf(),
        ensures
            final(self)@ == update_spec(old(self)@, msg@).0,
            cmd@ == update_spec(old(self)@, msg@).1,
            final(self)@.wf(),
    {
        match msg {
            Message::Edit(a) => {
                proof {
                    lemma_apply_spec_wf(old(self)@.doc, a);
                }
                self.content.apply_action(a);
                proof {
                    assert(self@ =~= update_spec(old(self)@, Message::Edit(a)@).0);
                }
                Command::Idle
            },
            Message::Open => Command::PickAndLoad,
            Message::FileOpened(outcome) => {
                match outcome {
                    Ok(text) => {
                        proof {
                            lemma_doc_from_text_wf(text@);
                        }
                        self.content = DocumentContent::with_text(text.as_str());
                        proof {
                            assert(self@ =~= update_spec(
                                old(self)@,
                                MessageView::FileOpened(Ok(text@)),
                            ).0);
                        }
                        Command::Idle
                    },
                    Err(e) => {
                        self.error = Some(e);
                        proof {
                            assert(self@ =~= update_spec(
                                old(self)@,
                                MessageView::FileOpened(Err(e)),
                            ).0);
                        }
                        Command::Idle
                    },
                }
            },
        }
    }

    /// The current document, for rendering.
    pub fn content(&self) -> (d: &DocumentContent)
        ensures
            d@ == self@.doc,
    {
        &self.content
    }

    /// The last remembered error, if any. It is overwritten by each new
    /// failure and never cleared, not even by a later successful load.
    pub fn last_error(&self) -> (e: Option<EditorError>)
        ensures
            e == self@.error,
    {
        self.error
    }
}

/// Classifies a file dialog outcome: a chosen path is forwarded for loading,
/// no selection becomes the `DialogClosed` error.
pub fn classify_pick(choice: Option<String>) -> (r: Result<String, EditorError>)
    ensures
        match choice {
            Some(path) => r matches Ok(p) && p@ == path@,
            None => r matches Err(e) && e == EditorError::DialogClosed,
        },
{
    match choice {
        Some(path) => Ok(path),
        None => Err(EditorError::DialogClosed),
    }
}

/// Classifies a file read outcome: the text is passed through unchanged, a
/// failure kind is wrapped as an `IO` error.
pub fn classify_load(outcome: Result<String, IoErrorKind>) -> (r: Result<String, EditorError>)
    ensures
        match outcome {
            Ok(text) => r matches Ok(t) && t@ == text@,
            Err(kind) => r matches Err(e) && e == EditorError::IO(kind),
        },
{
    match outcome {
        Ok(text) => Ok(text),
        Err(kind) => Err(EditorError::IO(kind)),
    }
}

/// Law: a successful load replaces the content wholesale, regardless of the
/// prior content, with the cursor reset to the origin; the last error is
/// kept as it was (a successful load never clears it), and no asynchronous
/// work is asked for. With results delivered as messages and no
/// cancellation, the load whose result is handled last therefore determines
/// the final content.
pub proof fn lemma_file_opened_replaces_content(s: EditorView, text: Seq<char>)
    requires
        s.wf(),
    ensures
        ({
            let step = update_spec(s, MessageView::FileOpened(Ok(text)));
            &&& step.0.doc == doc_from_text(text)
            &&& step.0.doc.cursor_line == 0
            &&& step.0.doc.cursor_col == 0
            &&& step.0.error == s.error
            &&& step.0.wf()
            &&& step.1 == CommandView::Idle
        }),
{
    lemma_doc_from_text_wf(text);
}

/// Law: a failed load, whether an `IO` failure or a cancelled dialog, leaves
/// the content untouched, records the error as the last one (replacing any
/// previous error), and asks for no asynchronous work.
pub proof fn lemma_failed_load_keeps_content(s: EditorView, e: EditorError)
    requires
        s.wf(),
    ensures
        ({
            let step = update_spec(s, MessageView::FileOpened(Err(e)));
            &&& step.0.doc == s.doc
            &&& step.0.error == Some(e)
            &&& step.0.wf()
            &&& step.1 == CommandView::Idle
        }),
{
}

} // verus!
