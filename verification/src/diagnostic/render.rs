//! Rendering a diagnostic as text: which files it shows, which spans it
//! marks in each, and which messages follow, decided here; the drawing is
//! annotate-snippets'.

use crate::diagnostic::{Diagnostic, Label, Level, Suggestion};
use crate::source::SourceMap;
use annotate_snippets::level::{ERROR, HELP, NOTE, WARNING};
use annotate_snippets::AnnotationKind::{Context, Primary};
use annotate_snippets::{Group, Renderer, Snippet};
use vstd::prelude::*;

verus! {

/// The bytes a character takes in UTF-8.
pub open spec fn utf8_width(character: char) -> nat {
    if (character as u32) < 0x80 {
        1
    } else if (character as u32) < 0x800 {
        2
    } else if (character as u32) < 0x10000 {
        3
    } else {
        4
    }
}

/// The bytes a text takes in UTF-8.
pub open spec fn utf8_length(text: Seq<char>) -> nat
    decreases text.len(),
{
    if text.len() == 0 {
        0
    } else {
        utf8_length(text.drop_last()) + utf8_width(text.last())
    }
}

/// Whether a byte offset into a text falls between two of its characters,
/// or at either end.
pub open spec fn at_boundary(text: Seq<char>, offset: int) -> bool {
    exists|count: int| 0 <= count <= text.len() && utf8_length(#[trigger] text.take(count)) == offset
}

/// Whether a byte range can be marked in a text: it starts no later than it
/// ends, and both ends fall between characters of the text.
pub open spec fn markable(text: Seq<char>, start: int, end: int) -> bool {
    start <= end && at_boundary(text, start) && at_boundary(text, end)
}

/// A marked range of an excerpt: whether it is the primary one, its bytes,
/// and its label.
pub struct Mark {
    pub primary: bool,
    pub start: usize,
    pub end: usize,
    pub label: String,
}

/// The view of a mark.
pub struct MarkView {
    pub primary: bool,
    pub start: nat,
    pub end: nat,
    pub label: Seq<char>,
}

impl View for Mark {
    type V = MarkView;

    open spec fn view(&self) -> MarkView {
        MarkView { primary: self.primary, start: self.start as nat, end: self.end as nat, label: self.label@ }
    }
}

/// A file shown by a diagnostic: its name, its text, the ranges marked in
/// it, in the order of the diagnostic's labels, and whether the lines far
/// from every mark are folded away.
pub struct Excerpt {
    pub name: String,
    pub text: String,
    pub marks: Vec<Mark>,
    pub folded: bool,
}

/// The view of an excerpt.
pub struct ExcerptView {
    pub name: Seq<char>,
    pub text: Seq<char>,
    pub marks: Seq<MarkView>,
    pub folded: bool,
}

impl View for Excerpt {
    type V = ExcerptView;

    open spec fn view(&self) -> ExcerptView {
        ExcerptView { name: self.name@, text: self.text@, marks: mark_views(self.marks@), folded: self.folded }
    }
}

/// What a rendered diagnostic shows, in order: its title, the excerpts of
/// the files its labels are in, and its remarks, each a help or a note.
pub struct Presentation {
    pub error: bool,
    pub code: &'static str,
    pub message: String,
    pub excerpts: Vec<Excerpt>,
    /// Whether each remark is a help, and its text.
    pub remarks: Vec<(bool, String)>,
}

/// The view of a presentation.
pub struct PresentationView {
    pub error: bool,
    pub code: Seq<char>,
    pub message: Seq<char>,
    pub excerpts: Seq<ExcerptView>,
    pub remarks: Seq<(bool, Seq<char>)>,
}

impl View for Presentation {
    type V = PresentationView;

    open spec fn view(&self) -> PresentationView {
        PresentationView {
            error: self.error,
            code: self.code@,
            message: self.message@,
            excerpts: excerpt_views(self.excerpts@),
            remarks: remark_views(self.remarks@),
        }
    }
}

/// The views of remarks.
pub open spec fn remark_views(remarks: Seq<(bool, String)>) -> Seq<(bool, Seq<char>)>
    decreases remarks.len(),
{
    if remarks.len() == 0 {
        Seq::empty()
    } else {
        remark_views(remarks.drop_last()).push((remarks.last().0, remarks.last().1@))
    }
}

/// Notes as remarks.
pub open spec fn note_remarks(notes: Seq<String>) -> Seq<(bool, Seq<char>)>
    decreases notes.len(),
{
    if notes.len() == 0 {
        Seq::empty()
    } else {
        note_remarks(notes.drop_last()).push((false, notes.last()@))
    }
}

/// Helps as remarks.
pub open spec fn help_remarks(helps: Seq<String>) -> Seq<(bool, Seq<char>)>
    decreases helps.len(),
{
    if helps.len() == 0 {
        Seq::empty()
    } else {
        help_remarks(helps.drop_last()).push((true, helps.last()@))
    }
}

/// The messages of suggestions as helps.
pub open spec fn suggestion_remarks(suggestions: Seq<Suggestion>) -> Seq<(bool, Seq<char>)>
    decreases suggestions.len(),
{
    if suggestions.len() == 0 {
        Seq::empty()
    } else {
        suggestion_remarks(suggestions.drop_last()).push((true, suggestions.last().message@))
    }
}

/// The views of marks.
pub open spec fn mark_views(marks: Seq<Mark>) -> Seq<MarkView>
    decreases marks.len(),
{
    if marks.len() == 0 {
        Seq::empty()
    } else {
        mark_views(marks.drop_last()).push(marks.last()@)
    }
}

/// The views of excerpts.
pub open spec fn excerpt_views(excerpts: Seq<Excerpt>) -> Seq<ExcerptView>
    decreases excerpts.len(),
{
    if excerpts.len() == 0 {
        Seq::empty()
    } else {
        excerpt_views(excerpts.drop_last()).push(excerpts.last()@)
    }
}

/// The excerpts of files: each file's name and text, with the marks of the
/// labels in it, folded.
pub open spec fn excerpts_of(files: Seq<usize>, labels: Seq<Label>, sources: SourceMap) -> Seq<ExcerptView>
    decreases files.len(),
{
    if files.len() == 0 {
        Seq::empty()
    } else {
        let file = files.last();
        excerpts_of(files.drop_last(), labels, sources).push(
            ExcerptView {
                name: sources.files@[file as int].name@,
                text: sources.files@[file as int].text@,
                marks: marks_in(labels, file),
                folded: true,
            },
        )
    }
}

/// The files that labels are in, each once, in the order of the first label
/// in each.
pub open spec fn label_files(labels: Seq<Label>) -> Seq<usize>
    decreases labels.len(),
{
    if labels.len() == 0 {
        Seq::empty()
    } else {
        let earlier = label_files(labels.drop_last());
        if earlier.contains(labels.last().span.file) {
            earlier
        } else {
            earlier.push(labels.last().span.file)
        }
    }
}

/// The marks of the labels in a file, in order.
pub open spec fn marks_in(labels: Seq<Label>, file: usize) -> Seq<MarkView>
    decreases labels.len(),
{
    if labels.len() == 0 {
        Seq::empty()
    } else {
        let earlier = marks_in(labels.drop_last(), file);
        let label = labels.last();
        if label.span.file == file {
            earlier.push(
                MarkView {
                    primary: label.primary,
                    start: label.span.start as nat,
                    end: label.span.end as nat,
                    label: label.message@,
                },
            )
        } else {
            earlier
        }
    }
}

/// What a diagnostic shows: its level, code and message as the title; an
/// excerpt of each file its labels are in, in the order of their first
/// labels, each with the marks of its labels; then its notes, its helps and
/// the messages of its suggestions as remarks.
pub open spec fn presentation_of(diagnostic: Diagnostic, sources: SourceMap) -> PresentationView {
    PresentationView {
        error: diagnostic.level == Level::Error,
        code: diagnostic.code@,
        message: diagnostic.message@,
        excerpts: excerpts_of(label_files(diagnostic.labels@), diagnostic.labels@, sources),
        remarks: note_remarks(diagnostic.notes@) + help_remarks(diagnostic.details.helps@) + suggestion_remarks(
            diagnostic.details.suggestions@,
        ),
    }
}

/// Whether every label of a diagnostic names a file of the sources and
/// marks a range of that file's text.
pub open spec fn renderable(diagnostic: Diagnostic, sources: SourceMap) -> bool {
    forall|i: int|
        0 <= i < diagnostic.labels@.len() ==> {
            let span = #[trigger] diagnostic.labels@[i].span;
            &&& span.file < sources.files@.len()
            &&& markable(sources.files@[span.file as int].text@, span.start as int, span.end as int)
        }
}

/// Whether every mark of a presentation marks a range of its excerpt's
/// text.
pub open spec fn presentable(presentation: PresentationView) -> bool {
    forall|i: int, j: int|
        #![trigger presentation.excerpts[i].marks[j]]
        0 <= i < presentation.excerpts.len() && 0 <= j < presentation.excerpts[i].marks.len() ==> markable(
            presentation.excerpts[i].text,
            presentation.excerpts[i].marks[j].start as int,
            presentation.excerpts[i].marks[j].end as int,
        )
}

/// What `annotate_snippets::Renderer::plain().render` draws for a
/// presentation: a function of the presentation alone.
pub uninterp spec fn plain_rendering(shown: PresentationView) -> Seq<char>;

/// Draws a presentation with `annotate_snippets::Renderer::render`, styled
/// when `color` is set and plain otherwise: the title at the level given,
/// each excerpt as a snippet under its file's name, folded as it says, with
/// its marks, primary or as context, then each remark as a help or a note.
/// The plain drawing is named; nothing is claimed of the styled one, which
/// depends on the platform the renderer was built for. The renderer panics
/// on a mark past the end of its text and slices the text at the marks'
/// offsets, which `presentable` keeps within the text and between
/// characters.
#[verifier::external_body]
fn rendered(shown: &Presentation, color: bool) -> (result: String)
    requires
        presentable(shown@),
    ensures
        !color ==> result@ == plain_rendering(shown@),
{
    let mut group = Group::with_title((if shown.error { ERROR } else { WARNING }).primary_title(&shown.message).id(shown.code));
    for e in &shown.excerpts {
        let marks = e.marks.iter().map(|m| (if m.primary { Primary } else { Context }).span(m.start..m.end).label(&m.label));
        group = group.element(Snippet::source(&e.text).path(&e.name).fold(e.folded).annotations(marks));
    }
    for (help, text) in &shown.remarks { group = group.element((if *help { HELP } else { NOTE }).message(text)); }
    (if color { Renderer::styled() } else { Renderer::plain() }).render(&[group])
}

impl Diagnostic {
    /// What the diagnostic shows when rendered.
    pub fn presentation(&self, sources: &SourceMap) -> (result: Presentation)
        requires
            forall|i: int| 0 <= i < self.labels@.len() ==> #[trigger] self.labels@[i].span.file < sources.files@.len(),
        ensures
            result@ == presentation_of(*self, *sources),
    {
        let labels = &self.labels;
        assert(labels@ == self.labels@);
        let mut files: Vec<usize> = Vec::new();
        let mut index: usize = 0;
        while index < labels.len()
            invariant
                index <= labels@.len(),
                files@ == label_files(labels@.take(index as int)),
            decreases labels.len() - index,
        {
            let file = labels[index].span.file;
            let mut known = false;
            let mut at: usize = 0;
            while at < files.len()
                invariant
                    at <= files@.len(),
                    known == (exists|k: int| 0 <= k < at && files@[k] == file),
                decreases files.len() - at,
            {
                if files[at] == file {
                    known = true;
                }
                at += 1;
            }
            assert(known == files@.contains(file));
            if !known {
                files.push(file);
            }
            assert(labels@.take(index + 1).drop_last() =~= labels@.take(index as int));
            index += 1;
        }
        assert(labels@.take(index as int) =~= labels@);
        let mut excerpts: Vec<Excerpt> = Vec::new();
        let mut at: usize = 0;
        while at < files.len()
            invariant
                at <= files@.len(),
                files@ == label_files(self.labels@),
                forall|i: int| 0 <= i < self.labels@.len() ==> #[trigger] self.labels@[i].span.file < sources.files@.len(),
                excerpt_views(excerpts@) == excerpts_of(files@.take(at as int), self.labels@, *sources),
                labels@ == self.labels@,
            decreases files.len() - at,
        {
            let file = files[at];
            proof {
                lemma_label_files_known(self.labels@, file);
            }
            let mut marks: Vec<Mark> = Vec::new();
            let mut index: usize = 0;
            while index < labels.len()
                invariant
                    index <= labels@.len(),
                    mark_views(marks@) == marks_in(labels@.take(index as int), file),
                    labels@ == self.labels@,
                decreases labels.len() - index,
            {
                let label = &labels[index];
                let ghost before = marks@;
                if label.span.file == file {
                    marks.push(
                        Mark {
                            primary: label.primary,
                            start: label.span.start,
                            end: label.span.end,
                            label: label.message.clone(),
                        },
                    );
                }
                assert(labels@.take(index + 1).drop_last() =~= labels@.take(index as int));
                if label.span.file == file {
                    assert(marks@.drop_last() =~= before);
                }
                index += 1;
            }
            assert(labels@.take(index as int) =~= labels@);
            let source = sources.get(file);
            let excerpt = Excerpt { name: source.name.clone(), text: source.text.clone(), marks, folded: true };
            assert(excerpt@ == (ExcerptView {
                name: sources.files@[files@[at as int] as int].name@,
                text: sources.files@[files@[at as int] as int].text@,
                marks: marks_in(self.labels@, files@[at as int]),
                folded: true,
            }));
            let ghost before = excerpts@;
            excerpts.push(excerpt);
            proof {
                assert(excerpts@.drop_last() =~= before);
                assert(files@.take(at + 1).drop_last() =~= files@.take(at as int));
            }
            at += 1;
        }
        let mut remarks: Vec<(bool, String)> = Vec::new();
        let notes = &self.notes;
        let mut index: usize = 0;
        while index < notes.len()
            invariant
                index <= notes@.len(),
                remark_views(remarks@) == note_remarks(notes@.take(index as int)),
            decreases notes.len() - index,
        {
            let ghost before = remarks@;
            remarks.push((false, notes[index].clone()));
            proof {
                assert(remarks@.drop_last() =~= before);
                assert(notes@.take(index + 1).drop_last() =~= notes@.take(index as int));
            }
            index += 1;
        }
        assert(notes@.take(index as int) =~= notes@);
        let ghost noted = remark_views(remarks@);
        let helps = &self.details.helps;
        let mut index: usize = 0;
        while index < helps.len()
            invariant
                index <= helps@.len(),
                remark_views(remarks@) == noted + help_remarks(helps@.take(index as int)),
            decreases helps.len() - index,
        {
            let ghost before = remarks@;
            remarks.push((true, helps[index].clone()));
            proof {
                assert(remarks@.drop_last() =~= before);
                assert(helps@.take(index + 1).drop_last() =~= helps@.take(index as int));
                assert(remark_views(remarks@) =~= noted + help_remarks(helps@.take(index + 1)));
            }
            index += 1;
        }
        assert(helps@.take(index as int) =~= helps@);
        let ghost helped = remark_views(remarks@);
        let suggestions = &self.details.suggestions;
        let mut index: usize = 0;
        while index < suggestions.len()
            invariant
                index <= suggestions@.len(),
                remark_views(remarks@) == helped + suggestion_remarks(suggestions@.take(index as int)),
            decreases suggestions.len() - index,
        {
            let ghost before = remarks@;
            remarks.push((true, suggestions[index].message.clone()));
            proof {
                assert(remarks@.drop_last() =~= before);
                assert(suggestions@.take(index + 1).drop_last() =~= suggestions@.take(index as int));
                assert(remark_views(remarks@) =~= helped + suggestion_remarks(suggestions@.take(index + 1)));
            }
            index += 1;
        }
        assert(suggestions@.take(index as int) =~= suggestions@);
        let result = Presentation {
            error: self.level == Level::Error,
            code: self.code,
            message: self.message.clone(),
            excerpts,
            remarks,
        };
        assert(files@.take(files@.len() as int) =~= files@);
        result
    }

    /// The diagnostic rendered as text, in color or plain: its title, an
    /// excerpt of each file its labels are in with their marks, its notes,
    /// then its helps and the messages of its suggestions. What is drawn is
    /// `presentation`'s result; the drawing is annotate-snippets', named
    /// when plain, of which nothing is claimed when styled.
    pub fn render(&self, sources: &SourceMap, color: bool) -> (result: String)
        requires
            renderable(*self, *sources),
        ensures
            !color ==> result@ == plain_rendering(presentation_of(*self, *sources)),
    {
        let presentation = self.presentation(sources);
        proof {
            lemma_presentable(*self, *sources);
        }
        rendered(&presentation, color)
    }
}

/// A file among the label files is the file of a label.
proof fn lemma_label_files_known(labels: Seq<Label>, file: usize)
    requires
        label_files(labels).contains(file),
    ensures
        exists|i: int| 0 <= i < labels.len() && #[trigger] labels[i].span.file == file,
    decreases labels.len(),
{
    if labels.len() > 0 {
        if label_files(labels.drop_last()).contains(file) {
            lemma_label_files_known(labels.drop_last(), file);
            let i = choose|i: int| 0 <= i < labels.drop_last().len() && #[trigger] labels.drop_last()[i].span.file == file;
            assert(labels[i].span.file == file);
        } else {
            assert(labels[labels.len() - 1].span.file == file);
        }
    }
}

/// Each mark in a file is the mark of a label in it.
proof fn lemma_marks_from_labels(labels: Seq<Label>, file: usize, j: int)
    requires
        0 <= j < marks_in(labels, file).len(),
    ensures
        exists|i: int|
            0 <= i < labels.len() && (#[trigger] labels[i]).span.file == file && labels[i].span.start as nat
                == marks_in(labels, file)[j].start && labels[i].span.end as nat == marks_in(labels, file)[j].end,
    decreases labels.len(),
{
    if labels.len() > 0 {
        let earlier = marks_in(labels.drop_last(), file);
        if j < earlier.len() {
            lemma_marks_from_labels(labels.drop_last(), file, j);
            let i = choose|i: int|
                0 <= i < labels.drop_last().len() && (#[trigger] labels.drop_last()[i]).span.file == file
                    && labels.drop_last()[i].span.start as nat == earlier[j].start && labels.drop_last()[i].span.end as nat
                    == earlier[j].end;
            assert(labels[i] == labels.drop_last()[i]);
        } else {
            assert(labels[labels.len() - 1] == labels.last());
        }
    }
}

/// The excerpt at an index is the one of the file at that index.
proof fn lemma_excerpts_of(files: Seq<usize>, labels: Seq<Label>, sources: SourceMap, i: int)
    requires
        0 <= i < files.len(),
    ensures
        excerpts_of(files, labels, sources).len() == files.len(),
        excerpts_of(files, labels, sources)[i] == (ExcerptView {
            name: sources.files@[files[i] as int].name@,
            text: sources.files@[files[i] as int].text@,
            marks: marks_in(labels, files[i]),
            folded: true,
        }),
    decreases files.len(),
{
    lemma_excerpts_length(files, labels, sources);
    if i < files.len() - 1 {
        lemma_excerpts_of(files.drop_last(), labels, sources, i);
    }
}

/// There is an excerpt for each file.
proof fn lemma_excerpts_length(files: Seq<usize>, labels: Seq<Label>, sources: SourceMap)
    ensures
        excerpts_of(files, labels, sources).len() == files.len(),
    decreases files.len(),
{
    if files.len() > 0 {
        lemma_excerpts_length(files.drop_last(), labels, sources);
    }
}

/// A renderable diagnostic presents marks within their texts.
proof fn lemma_presentable(diagnostic: Diagnostic, sources: SourceMap)
    requires
        renderable(diagnostic, sources),
    ensures
        presentable(presentation_of(diagnostic, sources)),
{
    let presentation = presentation_of(diagnostic, sources);
    assert forall|i: int, j: int|
        #![trigger presentation.excerpts[i].marks[j]]
        0 <= i < presentation.excerpts.len() && 0 <= j < presentation.excerpts[i].marks.len() implies markable(
            presentation.excerpts[i].text,
            presentation.excerpts[i].marks[j].start as int,
            presentation.excerpts[i].marks[j].end as int,
        ) by {
        let files = label_files(diagnostic.labels@);
        lemma_excerpts_length(files, diagnostic.labels@, sources);
        lemma_excerpts_of(files, diagnostic.labels@, sources, i);
        let file = files[i];
        lemma_marks_from_labels(diagnostic.labels@, file, j);
        let k = choose|k: int|
            0 <= k < diagnostic.labels@.len() && (#[trigger] diagnostic.labels@[k]).span.file == file
                && diagnostic.labels@[k].span.start as nat == marks_in(diagnostic.labels@, file)[j].start
                && diagnostic.labels@[k].span.end as nat == marks_in(diagnostic.labels@, file)[j].end;
        assert(diagnostic.labels@[k].span.file < sources.files@.len());
    }
}

} // verus!
