use vstd::prelude::*;
use vstd::string::*;

use pulldown_cmark::{CodeBlockKind, Event, Tag, TagEnd};

use crate::text::{trim_spec, trim_str};

verus! {

broadcast use vstd::string::group_string_axioms;

/// A paragraph or other prose of a reply.
#[derive(Clone, Debug)]
pub struct Instruction {
    pub text: String,
}

/// A code block of a reply, with the language named after its opening fence.
#[derive(Clone, Debug)]
pub struct CodeChange {
    pub language: String,
    pub code: String,
}

/// A reply split into its prose and its code blocks.
#[derive(Clone, Debug)]
pub struct ParsedLlmOutput {
    pub instructions: Vec<Instruction>,
    pub code_changes: Vec<CodeChange>,
}

/// The markdown events that the split depends on.
#[derive(Clone, Debug)]
pub enum MarkdownEvent {
    /// Plain text.
    Text(String),
    /// An inline code span.
    Code(String),
    /// The start of a code block, with its language (empty when none).
    StartCodeBlock(String),
    EndCodeBlock,
    /// A soft or hard line break.
    LineBreak,
    EndParagraph,
    /// Any other event.
    Other,
}

/// The state of the split: instructions and code blocks so far, the prose
/// being gathered, whether a code block is open, and the open block's language
/// and code.
pub type SplitState = (Seq<Seq<char>>, Seq<(Seq<char>, Seq<char>)>, Seq<char>, bool, (Seq<char>, Seq<char>));

pub open spec fn initial_split() -> SplitState {
    (seq![], seq![], seq![], false, (seq![], seq![]))
}

/// Ends the prose being gathered: it becomes an instruction, trimmed, unless it
/// is empty.
pub open spec fn flush_prose(st: SplitState) -> SplitState {
    if st.2.len() > 0 {
        (st.0.push(trim_spec(st.2)), st.1, seq![], st.3, st.4)
    } else {
        st
    }
}

pub open spec fn split_step(st: SplitState, e: MarkdownEvent) -> SplitState {
    match e {
        MarkdownEvent::Text(t) => if st.3 {
            (st.0, st.1, st.2, st.3, (st.4.0, st.4.1 + t@))
        } else {
            (st.0, st.1, st.2 + t@, st.3, st.4)
        },
        MarkdownEvent::Code(c) => if st.3 {
            st
        } else {
            (st.0, st.1, st.2 + seq!['`'] + c@ + seq!['`'], st.3, st.4)
        },
        MarkdownEvent::StartCodeBlock(lang) => (st.0, st.1, st.2, true, (lang@, st.4.1)),
        MarkdownEvent::EndCodeBlock => flush_prose(
            (st.0, st.1.push(st.4), st.2, false, (seq![], seq![])),
        ),
        MarkdownEvent::LineBreak => if st.3 {
            st
        } else {
            (st.0, st.1, st.2.push('\n'), st.3, st.4)
        },
        MarkdownEvent::EndParagraph => flush_prose(st),
        MarkdownEvent::Other => st,
    }
}

pub open spec fn split_events(es: Seq<MarkdownEvent>) -> SplitState
    decreases es.len(),
{
    if es.len() == 0 {
        initial_split()
    } else {
        split_step(split_events(es.drop_last()), es.last())
    }
}

/// The instructions and code blocks of a list of events, with the prose left
/// at the end flushed.
pub open spec fn split_spec(es: Seq<MarkdownEvent>) -> (Seq<Seq<char>>, Seq<(Seq<char>, Seq<char>)>) {
    let st = flush_prose(split_events(es));
    (st.0, st.1)
}

impl ParsedLlmOutput {
    pub open spec fn spec_view(&self) -> (Seq<Seq<char>>, Seq<(Seq<char>, Seq<char>)>) {
        (
            self.instructions@.map_values(|i: Instruction| i.text@),
            self.code_changes@.map_values(|c: CodeChange| (c.language@, c.code@)),
        )
    }
}

/// The markdown events of `output`, as `pulldown_cmark::Parser` yields them,
/// each mapped to the event of this library that stands for it.
pub uninterp spec fn markdown_events_of(output: Seq<char>) -> Seq<MarkdownEvent>;

/// Relies on `pulldown_cmark::Parser`: the events of `output`, each mapped to
/// the event of this library that stands for it.
#[verifier::external_body]
fn markdown_events(output: &str) -> (r: Vec<MarkdownEvent>)
    ensures
        r@ == markdown_events_of(output@),
{
    pulldown_cmark::Parser::new(output).map(|event| match event {
        Event::Text(t) => MarkdownEvent::Text(t.to_string()),
        Event::Code(c) => MarkdownEvent::Code(c.to_string()),
        Event::Start(Tag::CodeBlock(CodeBlockKind::Indented)) => MarkdownEvent::StartCodeBlock(String::new()),
        Event::Start(Tag::CodeBlock(CodeBlockKind::Fenced(l))) => MarkdownEvent::StartCodeBlock(l.to_string()),
        Event::End(TagEnd::CodeBlock) => MarkdownEvent::EndCodeBlock,
        Event::SoftBreak | Event::HardBreak => MarkdownEvent::LineBreak,
        Event::End(TagEnd::Paragraph) => MarkdownEvent::EndParagraph,
        _ => MarkdownEvent::Other,
    }).collect()
}

/// The split of a reply in progress.
struct Splitter {
    instructions: Vec<Instruction>,
    code_changes: Vec<CodeChange>,
    current: String,
    in_code_block: bool,
    language: String,
    code: String,
}

impl View for Splitter {
    type V = SplitState;

    closed spec fn view(&self) -> SplitState {
        (
            self.instructions@.map_values(|i: Instruction| i.text@),
            self.code_changes@.map_values(|c: CodeChange| (c.language@, c.code@)),
            self.current@,
            self.in_code_block,
            (self.language@, self.code@),
        )
    }
}

impl Splitter {
    fn flush(&mut self)
        ensures
            final(self)@ == flush_prose(old(self)@),
    {
        if self.current.unicode_len() > 0 {
            let text = trim_str(self.current.as_str()).to_owned();
            let ghost before = self.instructions@.map_values(|i: Instruction| i.text@);
            self.instructions.push(Instruction { text });
            assert(self.instructions@.map_values(|i: Instruction| i.text@) =~= before.push(
                trim_spec(old(self)@.2),
            ));
            self.current = String::new();
            assert(self@ =~= flush_prose(old(self)@));
        }
    }

    fn step(&mut self, e: &MarkdownEvent)
        ensures
            final(self)@ == split_step(old(self)@, *e),
    {
        proof {
            reveal_strlit("`");
            reveal_strlit("\n");
        }
        match e {
            MarkdownEvent::Text(t) => {
                if self.in_code_block {
                    self.code.append(t.as_str());
                } else {
                    self.current.append(t.as_str());
                }
            },
            MarkdownEvent::Code(c) => {
                if !self.in_code_block {
                    self.current.append("`");
                    self.current.append(c.as_str());
                    self.current.append("`");
                    assert(self.current@ =~= old(self)@.2 + seq!['`'] + c@ + seq!['`']);
                }
            },
            MarkdownEvent::StartCodeBlock(lang) => {
                self.in_code_block = true;
                self.language = lang.clone();
            },
            MarkdownEvent::EndCodeBlock => {
                self.in_code_block = false;
                let change = CodeChange { language: self.language.clone(), code: self.code.clone() };
                let ghost before = self.code_changes@.map_values(|c: CodeChange| (c.language@, c.code@));
                self.code_changes.push(change);
                assert(self.code_changes@.map_values(|c: CodeChange| (c.language@, c.code@)) =~= before.push(
                    old(self)@.4,
                ));
                self.language = String::new();
                self.code = String::new();
                assert(self@ =~= (old(self)@.0, old(self)@.1.push(old(self)@.4), old(self)@.2, false, (seq![], seq![])));
                self.flush();
            },
            MarkdownEvent::LineBreak => {
                if !self.in_code_block {
                    self.current.append("\n");
                    assert(self.current@ =~= old(self)@.2.push('\n'));
                }
            },
            MarkdownEvent::EndParagraph => {
                self.flush();
            },
            MarkdownEvent::Other => {},
        }
    }
}

impl ParsedLlmOutput {
    /// Splits a list of markdown events into instructions and code blocks:
    /// text outside code blocks gathers into the current instruction (inline
    /// code kept in backticks, line breaks as line feeds), which ends, trimmed,
    /// at the end of a paragraph or code block; each code block becomes a code
    /// change with its language.
    pub fn from_events(events: &Vec<MarkdownEvent>) -> (r: ParsedLlmOutput)
        ensures
            r.spec_view() == split_spec(events@),
    {
        let mut st = Splitter {
            instructions: Vec::new(),
            code_changes: Vec::new(),
            current: String::new(),
            in_code_block: false,
            language: String::new(),
            code: String::new(),
        };
        assert(st@ =~= initial_split());
        let mut i: usize = 0;
        while i < events.len()
            invariant
                i <= events@.len(),
                st@ == split_events(events@.subrange(0, i as int)),
            decreases events@.len() - i,
        {
            assert(events@.subrange(0, i + 1).drop_last() =~= events@.subrange(0, i as int));
            st.step(&events[i]);
            i += 1;
        }
        assert(events@.subrange(0, events@.len() as int) =~= events@);
        st.flush();
        ParsedLlmOutput { instructions: st.instructions, code_changes: st.code_changes }
    }

    /// Splits a markdown reply into instructions and code blocks.
    pub fn parse(output: &str) -> (r: ParsedLlmOutput)
        ensures
            r.spec_view() == split_spec(markdown_events_of(output@)),
    {
        let events = markdown_events(output);
        ParsedLlmOutput::from_events(&events)
    }
}

} // verus!
