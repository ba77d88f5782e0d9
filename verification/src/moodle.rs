use vstd::prelude::*;
use kuchiki::traits::TendrilSink;
use kuchiki::iter::NodeIterator;

use crate::text::{
    before_char, before_char_chars, lemma_before_char_runs_up_to, runs_up_to, byte_len, char_width, char_width_of, chars_eq, chars_of,
    chars_within, chars_within_bytes, copy_range, decimal, decimal_chars, lemma_chars_within_bounded,
    lemma_chars_within_prefix,
    lemma_encode_utf8_concat, segment_after, segment_after_chars, string_of,
};

verus! {

broadcast use vstd::string::group_string_axioms;

// ---------------------------------------------------------------------------
// Errors and configuration
// ---------------------------------------------------------------------------
/// Why a request to Moodle did not succeed.
#[derive(Debug, Clone, Copy, PartialEq, Eq, Structural)]
pub enum MoodleErr {
    Network,
    Login,
    CourseNotFound,
    Auth,
}

/// How to log in to Moodle.
#[derive(Debug, Clone)]
pub enum MoodleAuthConf {
    /// Shibboleth single sign-on with a user name and a password.
    ShibbolethUser(String, String),
}

// ---------------------------------------------------------------------------
// Course data
// ---------------------------------------------------------------------------
/// A snapshot of a Moodle course page.
#[derive(Debug, Clone)]
pub struct MoodleCourseData {
    id: u32,
    name: String,
    url: String,
    content: String,
}

/// The plain values a course snapshot holds.
pub struct CourseView {
    pub id: u32,
    pub name: Seq<char>,
    pub url: Seq<char>,
    pub content: Seq<char>,
}

impl View for MoodleCourseData {
    type V = CourseView;

    closed spec fn view(&self) -> CourseView {
        CourseView { id: self.id, name: self.name@, url: self.url@, content: self.content@ }
    }
}

impl MoodleCourseData {
    /// A snapshot with the given id, name, address and page content.
    pub fn new(id: u32, name: String, url: String, content: String) -> (res: MoodleCourseData)
        ensures
            res@ == (CourseView { id, name: name@, url: url@, content: content@ }),
    {
        MoodleCourseData { id, name, url, content }
    }

    pub fn id(&self) -> (res: u32)
        ensures
            res == self@.id,
    {
        self.id
    }

    pub fn name(&self) -> (res: &str)
        ensures
            res@ == self@.name,
    {
        self.name.as_str()
    }

    pub fn url(&self) -> (res: &str)
        ensures
            res@ == self@.url,
    {
        self.url.as_str()
    }

    pub fn content(&self) -> (res: &str)
        ensures
            res@ == self@.content,
    {
        self.content.as_str()
    }
}

/// The address of the page of course `id`.
pub open spec fn course_url_spec(id: u32) -> Seq<char> {
    "https://www.moodle.tum.de/course/view.php?id="@ + decimal(id as nat)
}

/// The address of the page of course `id`.
pub fn course_url(id: u32) -> (res: String)
    ensures
        res@ == course_url_spec(id),
{
    let mut url = String::from_str("https://www.moodle.tum.de/course/view.php?id=");
    let digits = string_of(decimal_chars(id as u64).as_slice());
    url.append(digits.as_str());
    url
}


// ---------------------------------------------------------------------------
// HTML documents, seen as the list of their elements
// ---------------------------------------------------------------------------
/// What the library reads of one element of an HTML document.
#[derive(Debug, Clone)]
pub struct HtmlElement {
    /// The element's local name (`div`, `h1`, `span`, ...).
    pub tag: String,
    /// Its `id` attribute, if it has one.
    pub id: Option<String>,
    /// Its `class` attribute, if it has one.
    pub class: Option<String>,
    /// The concatenation of all text inside it.
    pub text: String,
    /// The element serialised as HTML, itself included.
    pub markup: String,
}

/// The elements that kuchiki's HTML parser finds in `html`, in document order.
pub uninterp spec fn parsed_elements(html: Seq<char>) -> Seq<HtmlElement>;

/// Parses `html` with kuchiki (`parse_html().one(..)`) and lists the elements
/// among the document's descendants (`descendants().elements()`), each with its
/// local name, its `id` and `class` attributes (`attributes.get`), its
/// `text_contents()` and its serialisation (`as_node().to_string()`).
/// Claimed: the list is a function of `html` alone, named `parsed_elements`.
/// What kuchiki's HTML5 parser builds from a given text is not stated.
#[verifier::external_body]
fn html_elements(html: &str) -> (res: Vec<HtmlElement>)
    ensures
        res@ == parsed_elements(html@),
{
    kuchiki::parse_html().one(html).descendants().elements().map(|e| HtmlElement {
        tag: e.name.local.to_string(),
        id: e.attributes.borrow().get("id").map(|v| v.to_string()),
        class: e.attributes.borrow().get("class").map(|v| v.to_string()),
        text: e.text_contents(),
        markup: e.as_node().to_string(),
    }).collect()
}

/// The value of an optional attribute, or the empty text where it is absent.
pub open spec fn attr_or_empty(a: Option<String>) -> Seq<char> {
    match a {
        Some(v) => v@,
        None => Seq::<char>::empty(),
    }
}

fn attr_chars(a: &Option<String>) -> (res: Vec<char>)
    ensures
        res@ == attr_or_empty(*a),
{
    match a {
        Some(v) => chars_of(v.as_str()),
        None => Vec::new(),
    }
}

/// The element is the `div` whose id is `page-content`.
pub open spec fn is_page_content(e: HtmlElement) -> bool {
    e.tag@ == "div"@ && attr_or_empty(e.id) == "page-content"@
}

/// The element is a level-one heading.
pub open spec fn is_heading(e: HtmlElement) -> bool {
    e.tag@ == "h1"@
}

/// The markup of the last `div#page-content` in `els`, or the empty text.
pub open spec fn last_page_content(els: Seq<HtmlElement>) -> Seq<char>
    decreases els.len(),
{
    if els.len() == 0 {
        Seq::<char>::empty()
    } else if is_page_content(els.last()) {
        els.last().markup@
    } else {
        last_page_content(els.drop_last())
    }
}

/// The text of the last `h1` in `els`, or the empty text.
pub open spec fn last_heading(els: Seq<HtmlElement>) -> Seq<char>
    decreases els.len(),
{
    if els.len() == 0 {
        Seq::<char>::empty()
    } else if is_heading(els.last()) {
        els.last().text@
    } else {
        last_heading(els.drop_last())
    }
}

/// The course a page with elements `els` describes: its name is the text of
/// the last `h1`, its content the markup of the last `div#page-content`; a
/// page without a (non-empty) name is no course page.
pub open spec fn course_of_page(id: u32, url: Seq<char>, els: Seq<HtmlElement>) -> Result<CourseView, MoodleErr> {
    let name = last_heading(els);
    if name.len() > 0 {
        Ok(CourseView { id, name, url, content: last_page_content(els) })
    } else {
        Err(MoodleErr::CourseNotFound)
    }
}

/// Reads course `id`, found at `url`, off the elements of its page.
pub fn course_from_elements(id: u32, url: String, elements: &Vec<HtmlElement>) -> (res: Result<MoodleCourseData, MoodleErr>)
    ensures
        match res {
            Ok(c) => course_of_page(id, url@, elements@) == Ok::<CourseView, MoodleErr>(c@),
            Err(e) => course_of_page(id, url@, elements@) == Err::<CourseView, MoodleErr>(e),
        },
{
    let div = chars_of("div");
    let h1 = chars_of("h1");
    let page_content = chars_of("page-content");
    let mut content_at: Option<usize> = None;
    let mut name_at: Option<usize> = None;
    let mut i: usize = 0;
    while i < elements.len()
        invariant
            i <= elements@.len(),
            div@ == "div"@,
            h1@ == "h1"@,
            page_content@ == "page-content"@,
            match content_at {
                Some(k) => k < i && elements@[k as int].markup@ == last_page_content(elements@.take(i as int)),
                None => last_page_content(elements@.take(i as int)) == Seq::<char>::empty(),
            },
            match name_at {
                Some(k) => k < i && elements@[k as int].text@ == last_heading(elements@.take(i as int)),
                None => last_heading(elements@.take(i as int)) == Seq::<char>::empty(),
            },
        decreases elements@.len() - i,
    {
        let e = &elements[i];
        let tag = chars_of(e.tag.as_str());
        let ghost upto = elements@.take(i + 1);
        assert(upto.drop_last() =~= elements@.take(i as int));
        assert(upto.last() == elements@[i as int]);
        if chars_eq(tag.as_slice(), div.as_slice()) {
            proof {
                reveal_strlit("div");
                reveal_strlit("h1");
                assert("div"@[0] != "h1"@[0]);
            }
            let id_attr = attr_chars(&e.id);
            if chars_eq(id_attr.as_slice(), page_content.as_slice()) {
                content_at = Some(i);
            }
        } else if chars_eq(tag.as_slice(), h1.as_slice()) {
            name_at = Some(i);
        }
        i = i + 1;
    }
    assert(elements@.take(elements@.len() as int) =~= elements@);
    let name = match name_at {
        Some(k) => elements[k].text.clone(),
        None => String::new(),
    };
    let content = match content_at {
        Some(k) => elements[k].markup.clone(),
        None => String::new(),
    };
    if name.as_str().is_empty() {
        Err(MoodleErr::CourseNotFound)
    } else {
        Ok(MoodleCourseData::new(id, name, url, content))
    }
}

// ---------------------------------------------------------------------------
// Differences between two versions of a course page
// ---------------------------------------------------------------------------
/// One difference that html-diff reports between an old and a new page.
/// Only the kind of difference is kept, and for an element present on one
/// side only, the markup of that element.
#[derive(Debug, Clone)]
pub enum HtmlChange {
    NodeType,
    NodeName,
    NodeAttributes,
    NodeText,
    /// An element present on one side only: `missing` is the one the new
    /// page lacks, `added` the one the new page has in addition.
    NotPresent { missing: Option<String>, added: Option<String> },
}

/// The element is a `span` with exactly the given `class` attribute.
pub open spec fn is_span_of_class(e: HtmlElement, class: Seq<char>) -> bool {
    e.tag@ == "span"@ && attr_or_empty(e.class) == class
}

/// The text of the last `span` of class `class` in `els`, or the empty text.
pub open spec fn last_span_text(els: Seq<HtmlElement>, class: Seq<char>) -> Seq<char>
    decreases els.len(),
{
    if els.len() == 0 {
        Seq::<char>::empty()
    } else if is_span_of_class(els.last(), class) {
        els.last().text@
    } else {
        last_span_text(els.drop_last(), class)
    }
}

/// The summary line for an added piece of course material whose elements are
/// `els`: Moodle writes the material's title in a `span.instancename` that
/// ends with a `span.accesshide ` holding a space and the material's kind.
/// The line names the kind text without its first byte, and the name text
/// without as many bytes at its end as the kind text has (in UTF-8). Elements
/// that lack either span give no line. Where those byte positions are no
/// character boundaries (the kind text begins with a character of more than
/// one byte, or the name text has fewer bytes than the kind text or no
/// boundary there), slicing the text panics; there is no line either.
pub open spec fn upload_line(els: Seq<HtmlElement>) -> Option<Seq<char>> {
    let name = last_span_text(els, "instancename"@);
    let kind = last_span_text(els, "accesshide "@);
    if name.len() > 0 && kind.len() > 0 && char_width(kind[0]) == 1 {
        match chars_within(name, byte_len(name) - byte_len(kind)) {
            Some(k) => Some("New \""@ + kind.drop_first() + "\" uploaded: \""@ + name.take(k) + "\"\n"@),
            None => None,
        }
    } else {
        None
    }
}

/// Where the name text ends with the kind text, whose first character is a
/// single byte (as Moodle writes them), the line names the name text without
/// the kind text, and the kind text without that first character.
pub proof fn lemma_upload_line_strips_kind(els: Seq<HtmlElement>, title: Seq<char>)
    requires
        last_span_text(els, "instancename"@) == title + last_span_text(els, "accesshide "@),
        last_span_text(els, "accesshide "@).len() > 0,
        char_width(last_span_text(els, "accesshide "@)[0]) == 1,
    ensures
        upload_line(els) == Some("New \""@ + last_span_text(els, "accesshide "@).drop_first() + "\" uploaded: \""@
            + title + "\"\n"@),
{
    let kind = last_span_text(els, "accesshide "@);
    let name = title + kind;
    lemma_encode_utf8_concat(title, kind);
    lemma_chars_within_prefix(title, kind);
    assert(byte_len(name) - byte_len(kind) == byte_len(title));
    assert(name.take(title.len() as int) =~= title);
}

/// The title and the kind of an added element are read element by element:
/// a `span` whose class is exactly the one sought gives its text, any other
/// element leaves what was read before; there is nothing before the first
/// element. Without a non-empty title and a non-empty kind there is no line.
pub proof fn lemma_upload_spans_reading(els: Seq<HtmlElement>, e: HtmlElement, class: Seq<char>)
    ensures
        last_span_text(Seq::<HtmlElement>::empty(), class) == Seq::<char>::empty(),
        last_span_text(els.push(e), class) == (if e.tag@ == "span"@ && attr_or_empty(e.class) == class {
            e.text@
        } else {
            last_span_text(els, class)
        }),
        (last_span_text(els, "instancename"@).len() == 0 || last_span_text(els, "accesshide "@).len() == 0)
            ==> upload_line(els) is None,
{
    let all = els.push(e);
    assert(all.drop_last() =~= els);
    assert(all.last() == e);
}

/// The summary line, if any, for the added element with elements `els`.
pub fn describe_upload(elements: &Vec<HtmlElement>) -> (res: Option<String>)
    ensures
        match upload_line(elements@) {
            Some(line) => res matches Some(r) && r@ == line,
            None => res is None,
        },
{
    match upload_spans(elements) {
        (Some(n), Some(k)) => {
            let name_text = elements[n].text.as_str();
            let kind_text = elements[k].text.as_str();
            upload_line_of(name_text, kind_text)
        },
        _ => None,
    }
}

/// Where the last `span.instancename` and the last `span.accesshide ` of
/// `elements` stand, if there are any.
fn upload_spans(elements: &Vec<HtmlElement>) -> (res: (Option<usize>, Option<usize>))
    ensures
        match res.0 {
            Some(k) => k < elements@.len() && elements@[k as int].text@ == last_span_text(elements@, "instancename"@),
            None => last_span_text(elements@, "instancename"@) == Seq::<char>::empty(),
        },
        match res.1 {
            Some(k) => k < elements@.len() && elements@[k as int].text@ == last_span_text(elements@, "accesshide "@),
            None => last_span_text(elements@, "accesshide "@) == Seq::<char>::empty(),
        },
{
    let span = chars_of("span");
    let instancename = chars_of("instancename");
    let accesshide = chars_of("accesshide ");
    let mut name_at: Option<usize> = None;
    let mut kind_at: Option<usize> = None;
    let mut i: usize = 0;
    while i < elements.len()
        invariant
            i <= elements@.len(),
            span@ == "span"@,
            instancename@ == "instancename"@,
            accesshide@ == "accesshide "@,
            match name_at {
                Some(k) => k < i && elements@[k as int].text@ == last_span_text(elements@.take(i as int), "instancename"@),
                None => last_span_text(elements@.take(i as int), "instancename"@) == Seq::<char>::empty(),
            },
            match kind_at {
                Some(k) => k < i && elements@[k as int].text@ == last_span_text(elements@.take(i as int), "accesshide "@),
                None => last_span_text(elements@.take(i as int), "accesshide "@) == Seq::<char>::empty(),
            },
        decreases elements@.len() - i,
    {
        let e = &elements[i];
        let ghost upto = elements@.take(i + 1);
        assert(upto.drop_last() =~= elements@.take(i as int));
        assert(upto.last() == elements@[i as int]);
        let tag = chars_of(e.tag.as_str());
        if chars_eq(tag.as_slice(), span.as_slice()) {
            let class = attr_chars(&e.class);
            if chars_eq(class.as_slice(), instancename.as_slice()) {
                name_at = Some(i);
            }
            if chars_eq(class.as_slice(), accesshide.as_slice()) {
                kind_at = Some(i);
            }
        }
        i = i + 1;
    }
    assert(elements@.take(elements@.len() as int) =~= elements@);
    (name_at, kind_at)
}

/// The upload line for a name text and a kind text.
fn upload_line_of(name_text: &str, kind_text: &str) -> (res: Option<String>)
    ensures
        ({
            let name = name_text@;
            let kind = kind_text@;
            let line = if name.len() > 0 && kind.len() > 0 && char_width(kind[0]) == 1 {
                match chars_within(name, byte_len(name) - byte_len(kind)) {
                    Some(k) => Some("New \""@ + kind.drop_first() + "\" uploaded: \""@ + name.take(k) + "\"\n"@),
                    None => None,
                }
            } else {
                None
            };
            match line {
                Some(l) => res matches Some(r) && r@ == l,
                None => res is None,
            }
        }),
{
    let name = chars_of(name_text);
    let kind = chars_of(kind_text);
    if name.len() == 0 || kind.len() == 0 || char_width_of(kind[0]) != 1 {
        return None;
    }
    let name_bytes = name_text.as_bytes().len();
    let kind_bytes = kind_text.as_bytes().len();
    if kind_bytes > name_bytes {
        return None;
    }
    match chars_within_bytes(name.as_slice(), name_bytes - kind_bytes) {
        None => None,
        Some(title_len) => {
            proof {
                lemma_chars_within_bounded(name@, (name_bytes - kind_bytes) as int);
            }
            let mut line = String::from_str("New \"");
            line.append(string_of(copy_range(kind.as_slice(), 1, kind.len()).as_slice()).as_str());
            line.append("\" uploaded: \"");
            line.append(string_of(copy_range(name.as_slice(), 0, title_len).as_slice()).as_str());
            line.append("\"\n");
            Some(line)
        },
    }
}

/// The summary text a difference contributes: for an element the new page
/// has in addition, its upload line (the element's markup parsed by kuchiki);
/// nothing for any other difference.
pub open spec fn change_line(c: HtmlChange) -> Seq<char> {
    match c {
        HtmlChange::NotPresent { added: Some(markup), .. } => match upload_line(parsed_elements(markup@)) {
            Some(line) => line,
            None => Seq::<char>::empty(),
        },
        _ => Seq::<char>::empty(),
    }
}

/// The lines of all differences, in order.
pub open spec fn changes_summary(changes: Seq<HtmlChange>) -> Seq<char>
    decreases changes.len(),
{
    if changes.len() == 0 {
        Seq::<char>::empty()
    } else {
        changes_summary(changes.drop_last()) + change_line(changes.last())
    }
}

/// The user-facing summary of a list of differences: the lines, or nothing
/// where no difference gives a line.
pub open spec fn user_diff_spec(changes: Seq<HtmlChange>) -> Option<Seq<char>> {
    let s = changes_summary(changes);
    if s.len() > 0 {
        Some(s)
    } else {
        None
    }
}

impl MoodleCourseData {
    /// Summarises for users what was added to this course: one line per newly
    /// uploaded piece of material. `changes` are the differences html-diff
    /// reports from this snapshot's content to a newer one's.
    pub fn user_diff(&self, changes: &Vec<HtmlChange>) -> (res: Option<String>)
        ensures
            match user_diff_spec(changes@) {
                Some(text) => res matches Some(r) && r@ == text,
                None => res is None,
            },
    {
        let mut summary = String::new();
        let mut i: usize = 0;
        while i < changes.len()
            invariant
                i <= changes@.len(),
                summary@ == changes_summary(changes@.take(i as int)),
            decreases changes@.len() - i,
        {
            let ghost upto = changes@.take(i + 1);
            assert(upto.drop_last() =~= changes@.take(i as int));
            assert(upto.last() == changes@[i as int]);
            match &changes[i] {
                HtmlChange::NotPresent { added: Some(markup), .. } => {
                    let elements = html_elements(markup.as_str());
                    match describe_upload(&elements) {
                        Some(line) => {
                            summary.append(line.as_str());
                        },
                        None => {
                            assert(summary@ + Seq::<char>::empty() =~= summary@);
                        },
                    }
                },
                _ => {
                    assert(summary@ + Seq::<char>::empty() =~= summary@);
                },
            }
            i = i + 1;
        }
        assert(changes@.take(changes@.len() as int) =~= changes@);
        if summary.as_str().is_empty() {
            None
        } else {
            Some(summary)
        }
    }
}


/// An added element whose parts give no upload line because it lacks the
/// title (`span.instancename`) or the kind (`span.accesshide `), or has one
/// of them empty.
pub open spec fn is_unrecognised(els: Seq<HtmlElement>) -> bool {
    !(last_span_text(els, "instancename"@).len() > 0 && last_span_text(els, "accesshide "@).len() > 0)
}

/// The markups of the added elements that are not recognised as uploads,
/// in the order of the differences.
pub open spec fn unrecognised_markups(changes: Seq<HtmlChange>) -> Seq<Seq<char>>
    decreases changes.len(),
{
    if changes.len() == 0 {
        Seq::<Seq<char>>::empty()
    } else {
        let prev = unrecognised_markups(changes.drop_last());
        match changes.last() {
            HtmlChange::NotPresent { added: Some(markup), .. } => if is_unrecognised(parsed_elements(markup@)) {
                prev.push(markup@)
            } else {
                prev
            },
            _ => prev,
        }
    }
}

impl MoodleCourseData {
    /// The markups of the elements that `changes` add and that are not
    /// recognised as uploads; `changes` are the differences html-diff reports
    /// from this snapshot's content to a newer one's.
    pub fn unrecognised_changes(&self, changes: &Vec<HtmlChange>) -> (res: Vec<String>)
        ensures
            res@.len() == unrecognised_markups(changes@).len(),
            forall|i: int| 0 <= i < res@.len() ==> #[trigger] res@[i]@ == unrecognised_markups(changes@)[i],
    {
        let mut found: Vec<String> = Vec::new();
        let mut i: usize = 0;
        while i < changes.len()
            invariant
                i <= changes@.len(),
                found@.len() == unrecognised_markups(changes@.take(i as int)).len(),
                forall|k: int| 0 <= k < found@.len() ==> #[trigger] found@[k]@ == unrecognised_markups(changes@.take(i as int))[k],
            decreases changes@.len() - i,
        {
            let ghost upto = changes@.take(i + 1);
            assert(upto.drop_last() =~= changes@.take(i as int));
            assert(upto.last() == changes@[i as int]);
            match &changes[i] {
                HtmlChange::NotPresent { added: Some(markup), .. } => {
                    let elements = html_elements(markup.as_str());
                    let recognised = match upload_spans(&elements) {
                        (Some(n), Some(k)) => {
                            !elements[n].text.as_str().is_empty() && !elements[k].text.as_str().is_empty()
                        },
                        _ => false,
                    };
                    if !recognised {
                        found.push(markup.clone());
                    }
                },
                _ => {},
            }
            i = i + 1;
        }
        assert(changes@.take(changes@.len() as int) =~= changes@);
        found
    }
}

// ---------------------------------------------------------------------------
// Updating a snapshot
// ---------------------------------------------------------------------------
/// `origin` after an update to the newer snapshot `target`: the content is
/// taken over where it differs; id, name and address stay.
pub open spec fn updated_course(origin: CourseView, target: CourseView) -> CourseView {
    CourseView { content: target.content, ..origin }
}

/// What an update of `origin` to the fetched `target` reports: the fetch's
/// error; no change where the content is the same; else the user summary of
/// `changes`.
pub open spec fn update_report(
    origin: CourseView,
    target: Result<CourseView, MoodleErr>,
    changes: Seq<HtmlChange>,
) -> Result<Option<Seq<char>>, MoodleErr> {
    match target {
        Err(e) => Err(e),
        Ok(t) => if t.content == origin.content {
            Ok(None)
        } else {
            Ok(user_diff_spec(changes))
        },
    }
}

/// The course after the update of `origin` to the fetched `target`.
pub open spec fn course_after_update(origin: CourseView, target: Result<CourseView, MoodleErr>) -> CourseView {
    match target {
        Err(_) => origin,
        Ok(t) => if t.content == origin.content {
            origin
        } else {
            updated_course(origin, t)
        },
    }
}

/// A fetched course, seen by its plain values.
pub open spec fn fetched_view(target: Result<MoodleCourseData, MoodleErr>) -> Result<CourseView, MoodleErr> {
    match target {
        Ok(t) => Ok(t@),
        Err(e) => Err(e),
    }
}

/// A report, seen by its plain values.
pub open spec fn report_view(r: Result<Option<String>, MoodleErr>) -> Result<Option<Seq<char>>, MoodleErr> {
    match r {
        Ok(Some(s)) => Ok(Some(s@)),
        Ok(None) => Ok(None),
        Err(e) => Err(e),
    }
}

impl MoodleCourseData {
    /// Takes over the content of the newer snapshot `target` where it differs
    /// from this one's, and reports what changed.
    fn take_update(&mut self, target: MoodleCourseData, changes: &Vec<HtmlChange>) -> (res: Option<String>)
        ensures
            final(self)@ == course_after_update(old(self)@, Ok(target@)),
            report_view(Ok(res)) == update_report(old(self)@, Ok(target@), changes@),
    {
        if target.content == self.content {
            None
        } else {
            let diff = self.user_diff(changes);
            self.content = target.content;
            diff
        }
    }
}

// ---------------------------------------------------------------------------
// The session with Moodle
// ---------------------------------------------------------------------------
#[verifier::external_type_specification]
#[verifier::external_body]
pub struct ExClient(reqwest::Client);

/// Whether the library holds an HTTP client that was logged in once.
pub enum MoodleState {
    Unknown,
    MaybeLoggedIn { client: reqwest::Client },
}

/// The connection to Moodle: how to log in, and the session so far.
pub struct MoodleContext {
    auth: MoodleAuthConf,
    state: MoodleState,
}

/// Where a check of the session stands, before a request is made.
pub enum SessionCheck {
    /// The session is to be tried on Moodle's home page.
    Probing,
    /// A login is to be tried; `failures` logins of this check failed so far.
    LoggingIn { failures: u32 },
    /// The check is over: the session is usable, or the error.
    Done(Result<(), MoodleErr>),
}

/// What the caller is to do next for a session check.
pub enum SessionAction {
    /// Request Moodle's home page with the held client.
    Probe,
    /// Log in with a fresh client.
    Login,
    /// The held client is ready to use.
    Ready,
    /// The check failed with this error.
    Fail(MoodleErr),
}

/// What came of the request a session check asked for.
pub enum SessionEvent {
    /// The home page answered with this status, or the request failed (`None`).
    Probed(Option<u16>),
    /// The login succeeded with this client, or failed (`None`).
    LoggedIn(Option<reqwest::Client>),
}

/// The check that follows `check` once `event` came in. An event that does
/// not answer the check's request changes nothing.
pub open spec fn next_check(check: SessionCheck, event: SessionEvent) -> SessionCheck {
    match check {
        SessionCheck::Probing => match event {
            SessionEvent::Probed(Some(status)) => if status == 200 {
                SessionCheck::Done(Ok(()))
            } else {
                SessionCheck::LoggingIn { failures: 0 }
            },
            SessionEvent::Probed(None) => SessionCheck::Done(Err(MoodleErr::Network)),
            _ => check,
        },
        SessionCheck::LoggingIn { failures } => match event {
            SessionEvent::LoggedIn(Some(_)) => SessionCheck::Done(Ok(())),
            SessionEvent::LoggedIn(None) => if failures >= 2 {
                SessionCheck::Done(Err(MoodleErr::Login))
            } else {
                SessionCheck::LoggingIn { failures: (failures + 1) as u32 }
            },
            _ => check,
        },
        SessionCheck::Done(_) => check,
    }
}

/// The session after `event` came in during `check`: a successful login
/// replaces the held client, nothing else touches it.
pub open spec fn state_after(state: MoodleState, check: SessionCheck, event: SessionEvent) -> MoodleState {
    match check {
        SessionCheck::LoggingIn { .. } => match event {
            SessionEvent::LoggedIn(Some(client)) => MoodleState::MaybeLoggedIn { client },
            _ => state,
        },
        _ => state,
    }
}

/// The request a check asks for, or its outcome.
pub open spec fn action_of(check: SessionCheck) -> SessionAction {
    match check {
        SessionCheck::Probing => SessionAction::Probe,
        SessionCheck::LoggingIn { .. } => SessionAction::Login,
        SessionCheck::Done(Ok(())) => SessionAction::Ready,
        SessionCheck::Done(Err(e)) => SessionAction::Fail(e),
    }
}

impl SessionCheck {
    /// The request this check asks for, or its outcome.
    pub fn action(&self) -> (res: SessionAction)
        ensures
            res == action_of(*self),
    {
        match self {
            SessionCheck::Probing => SessionAction::Probe,
            SessionCheck::LoggingIn { .. } => SessionAction::Login,
            SessionCheck::Done(Ok(())) => SessionAction::Ready,
            SessionCheck::Done(Err(e)) => SessionAction::Fail(*e),
        }
    }
}

impl MoodleContext {
    /// A context that has not logged in yet.
    pub fn new(auth: MoodleAuthConf) -> (res: MoodleContext)
        ensures
            res.auth() == auth,
            res.state() is Unknown,
    {
        MoodleContext { auth, state: MoodleState::Unknown }
    }

    pub closed spec fn auth(&self) -> MoodleAuthConf {
        self.auth
    }

    pub closed spec fn state(&self) -> MoodleState {
        self.state
    }

    /// The context after `event` came in during `check`.
    pub closed spec fn after_event(self, check: SessionCheck, event: SessionEvent) -> MoodleContext {
        MoodleContext { auth: self.auth, state: state_after(self.state, check, event) }
    }

    /// What a context after an event holds.
    pub proof fn lemma_after_event(self, check: SessionCheck, event: SessionEvent)
        ensures
            self.after_event(check, event).auth() == self.auth(),
            self.after_event(check, event).state() == state_after(self.state(), check, event),
            state_after(self.state(), check, event) == self.state() ==> self.after_event(check, event) == self,
    {
    }

    /// How to log in.
    pub fn auth_conf(&self) -> (res: &MoodleAuthConf)
        ensures
            *res == self.auth(),
    {
        &self.auth
    }

    /// The held client, if a login succeeded once.
    pub fn client(&self) -> (res: Option<&reqwest::Client>)
        ensures
            match self.state() {
                MoodleState::Unknown => res is None,
                MoodleState::MaybeLoggedIn { client } => res == Some(&client),
            },
    {
        match &self.state {
            MoodleState::Unknown => None,
            MoodleState::MaybeLoggedIn { client } => Some(client),
        }
    }

    /// Starts a check that the session is usable: a held client is tried
    /// first; without one, logins are tried.
    pub fn begin_check(&self) -> (res: SessionCheck)
        ensures
            res == begin_check_spec(self.state()),
            match self.state() {
                MoodleState::Unknown => res == (SessionCheck::LoggingIn { failures: 0 }),
                MoodleState::MaybeLoggedIn { .. } => res is Probing,
            },
    {
        match &self.state {
            MoodleState::Unknown => SessionCheck::LoggingIn { failures: 0 },
            MoodleState::MaybeLoggedIn { .. } => SessionCheck::Probing,
        }
    }

    /// Takes in the answer `event` to the request that `check` asked for, and
    /// gives the check that follows: a home page answered with 200 means the
    /// session is usable; another status means logging in; a failed request
    /// means a network error. A successful login is kept as the session; the
    /// third failed login of a check ends it with a login error.
    pub fn advance_check(&mut self, check: SessionCheck, event: SessionEvent) -> (res: SessionCheck)
        ensures
            res == next_check(check, event),
            *final(self) == old(self).after_event(check, event),
            final(self).state() == state_after(old(self).state(), check, event),
            final(self).auth() == old(self).auth(),
    {
        match check {
            SessionCheck::Probing => match event {
                SessionEvent::Probed(Some(status)) => if status == 200 {
                    SessionCheck::Done(Ok(()))
                } else {
                    SessionCheck::LoggingIn { failures: 0 }
                },
                SessionEvent::Probed(None) => SessionCheck::Done(Err(MoodleErr::Network)),
                _ => check,
            },
            SessionCheck::LoggingIn { failures } => match event {
                SessionEvent::LoggedIn(Some(client)) => {
                    self.state = MoodleState::MaybeLoggedIn { client };
                    SessionCheck::Done(Ok(()))
                },
                SessionEvent::LoggedIn(None) => if failures >= 2 {
                    SessionCheck::Done(Err(MoodleErr::Login))
                } else {
                    SessionCheck::LoggingIn { failures: failures + 1 }
                },
                _ => check,
            },
            SessionCheck::Done(_) => check,
        }
    }

    /// Reads course `id` off the answer to the request for its page: the HTTP
    /// status and the page's text. Any status but 200 means the course was
    /// not found.
    pub fn get(&self, id: u32, status: u16, page: &str) -> (res: Result<MoodleCourseData, MoodleErr>)
        ensures
            fetched_view(res) == (if status != 200 {
                Err(MoodleErr::CourseNotFound)
            } else {
                course_of_page(id, course_url_spec(id), parsed_elements(page@))
            }),
    {
        if status != 200 {
            return Err(MoodleErr::CourseNotFound);
        }
        let elements = html_elements(page);
        let url = course_url(id);
        course_from_elements(id, url, &elements)
    }

    /// Brings the snapshot `origin` up to date with `target`, the result of
    /// fetching the course again, and reports what changed. `changes` are the
    /// differences html-diff reports from `origin`'s content to `target`'s.
    pub fn update(
        &self,
        origin: &mut MoodleCourseData,
        target: Result<MoodleCourseData, MoodleErr>,
        changes: &Vec<HtmlChange>,
    ) -> (res: Result<Option<String>, MoodleErr>)
        ensures
            final(origin)@ == course_after_update(old(origin)@, fetched_view(target)),
            report_view(res) == update_report(old(origin)@, fetched_view(target), changes@),
    {
        match target {
            Err(e) => Err(e),
            Ok(t) => Ok(origin.take_update(t, changes)),
        }
    }
}

// ---------------------------------------------------------------------------
// The Shibboleth login pages
// ---------------------------------------------------------------------------
/// The address the login form of `page` posts to: the `action` of the first
/// `form`, resolved against the login server.
pub open spec fn login_form_url_spec(page: Seq<char>) -> Option<Seq<char>> {
    match segment_after(page, "form action=\""@) {
        Some(seg) => Some("https://login.tum.de"@ + before_char(seg, '"')),
        None => None,
    }
}

/// The address the login form of `page` posts to; `None` where the page has
/// no form.
pub fn login_form_url(page: &str) -> (res: Option<String>)
    ensures
        match login_form_url_spec(page@) {
            Some(u) => res matches Some(r) && r@ == u,
            None => res is None,
        },
{
    let text = chars_of(page);
    let marker = chars_of("form action=\"");
    match segment_after_chars(text.as_slice(), marker.as_slice()) {
        None => None,
        Some(seg) => {
            let action = before_char_chars(seg.as_slice(), '"');
            let mut url = String::from_str("https://login.tum.de");
            url.append(string_of(action.as_slice()).as_str());
            Some(url)
        },
    }
}

/// The hidden fields of the SAML answer page that are posted back to Moodle:
/// the relay state (with its `cookie&#x3a;` prefix decoded to `cookie:`)
/// and the SAML response. A page without either means the credentials were
/// refused.
pub open spec fn saml_fields_spec(page: Seq<char>) -> Result<(Seq<char>, Seq<char>), MoodleErr> {
    match segment_after(page, "name=\"RelayState\" value=\"cookie&#x3a;"@) {
        None => Err(MoodleErr::Auth),
        Some(relay) => match segment_after(page, "name=\"SAMLResponse\" value=\""@) {
            None => Err(MoodleErr::Auth),
            Some(saml) => Ok(("cookie:"@ + before_char(relay, '"'), before_char(saml, '"'))),
        },
    }
}

/// The relay state and the SAML response of the answer `page` to a login.
pub fn saml_fields(page: &str) -> (res: Result<(String, String), MoodleErr>)
    ensures
        match saml_fields_spec(page@) {
            Ok((relay, saml)) => res matches Ok((r, s)) && r@ == relay && s@ == saml,
            Err(e) => res == Err::<(String, String), MoodleErr>(e),
        },
{
    let text = chars_of(page);
    let relay_marker = chars_of("name=\"RelayState\" value=\"cookie&#x3a;");
    let relay = match segment_after_chars(text.as_slice(), relay_marker.as_slice()) {
        None => return Err(MoodleErr::Auth),
        Some(seg) => before_char_chars(seg.as_slice(), '"'),
    };
    let saml_marker = chars_of("name=\"SAMLResponse\" value=\"");
    let saml = match segment_after_chars(text.as_slice(), saml_marker.as_slice()) {
        None => return Err(MoodleErr::Auth),
        Some(seg) => before_char_chars(seg.as_slice(), '"'),
    };
    let mut relay_state = String::from_str("cookie:");
    relay_state.append(string_of(relay.as_slice()).as_str());
    Ok((relay_state, string_of(saml.as_slice())))
}

// ---------------------------------------------------------------------------
// Laws
// ---------------------------------------------------------------------------
/// The fields posted back after a login are the whole values of the answer
/// page, each up to its closing `"`: the SAML response is all of the text
/// after its marker up to the next `"` (or to the end of the text after the
/// marker), nothing of it cut off and no `"` in it; the relay state is
/// `cookie:` followed likewise by all of the value after its marker. The
/// page is refused exactly where one of the two markers is missing.
pub proof fn lemma_saml_values_whole(page: Seq<char>)
    ensures
        (saml_fields_spec(page) is Ok) == (segment_after(page, "name=\"RelayState\" value=\"cookie&#x3a;"@) is Some
            && segment_after(page, "name=\"SAMLResponse\" value=\""@) is Some),
        saml_fields_spec(page) is Err ==> saml_fields_spec(page) == Err::<(Seq<char>, Seq<char>), MoodleErr>(MoodleErr::Auth),
        saml_fields_spec(page) matches Ok((relay, saml)) ==> ({
            &&& segment_after(page, "name=\"SAMLResponse\" value=\""@) matches Some(seg) && runs_up_to(saml, seg, '"')
            &&& segment_after(page, "name=\"RelayState\" value=\"cookie&#x3a;"@) matches Some(seg)
                && relay.len() >= "cookie:"@.len()
                && relay.take("cookie:"@.len() as int) == "cookie:"@
                && runs_up_to(relay.skip("cookie:"@.len() as int), seg, '"')
        }),
{
    let rm = "name=\"RelayState\" value=\"cookie&#x3a;"@;
    let sm = "name=\"SAMLResponse\" value=\""@;
    if let Some(rseg) = segment_after(page, rm) {
        if let Some(sseg) = segment_after(page, sm) {
            lemma_before_char_runs_up_to(rseg, '"');
            lemma_before_char_runs_up_to(sseg, '"');
            let relay = "cookie:"@ + before_char(rseg, '"');
            assert(relay.take("cookie:"@.len() as int) =~= "cookie:"@);
            assert(relay.skip("cookie:"@.len() as int) =~= before_char(rseg, '"'));
        }
    }
}

/// The login form's address is `https://login.tum.de` followed by all of
/// the form's `action` value, up to its closing `"`; a page without a form
/// gives none.
pub proof fn lemma_login_form_url_whole(page: Seq<char>)
    ensures
        (login_form_url_spec(page) is Some) == (segment_after(page, "form action=\""@) is Some),
        login_form_url_spec(page) matches Some(url) ==> (segment_after(page, "form action=\""@) matches Some(seg)
            && url.len() >= "https://login.tum.de"@.len()
            && url.take("https://login.tum.de"@.len() as int) == "https://login.tum.de"@
            && runs_up_to(url.skip("https://login.tum.de"@.len() as int), seg, '"')),
{
    if let Some(seg) = segment_after(page, "form action=\""@) {
        lemma_before_char_runs_up_to(seg, '"');
        let url = "https://login.tum.de"@ + before_char(seg, '"');
        assert(url.take("https://login.tum.de"@.len() as int) =~= "https://login.tum.de"@);
        assert(url.skip("https://login.tum.de"@.len() as int) =~= before_char(seg, '"'));
    }
}

/// The summary of a list of differences is the summaries of its parts, one
/// after the other, and so are the unrecognised elements: nothing is
/// reordered, dropped or repeated.
pub proof fn lemma_reports_in_order(a: Seq<HtmlChange>, b: Seq<HtmlChange>)
    ensures
        changes_summary(a + b) == changes_summary(a) + changes_summary(b),
        unrecognised_markups(a + b) == unrecognised_markups(a) + unrecognised_markups(b),
    decreases b.len(),
{
    if b.len() == 0 {
        assert(a + b =~= a);
        assert(changes_summary(a) + Seq::<char>::empty() =~= changes_summary(a));
        assert(unrecognised_markups(a) + Seq::<Seq<char>>::empty() =~= unrecognised_markups(a));
    } else {
        lemma_reports_in_order(a, b.drop_last());
        assert((a + b).drop_last() =~= a + b.drop_last());
        assert((a + b).last() == b.last());
        assert(changes_summary(a) + changes_summary(b.drop_last()) + change_line(b.last())
            =~= changes_summary(a) + (changes_summary(b.drop_last()) + change_line(b.last())));
        let pa = unrecognised_markups(a);
        let pb = unrecognised_markups(b.drop_last());
        match b.last() {
            HtmlChange::NotPresent { added: Some(markup), .. } => {
                assert((pa + pb).push(markup@) =~= pa + pb.push(markup@));
            },
            _ => {},
        }
    }
}

/// What one difference contributes. An element the newer page has in
/// addition gives its upload line, or is listed as unrecognised where it
/// lacks a non-empty title or kind; an element the newer page lacks, and a
/// change of type, name, attributes or text, give nothing. The summary for
/// users is the lines, or nothing where there are none; an element that
/// gives a line is never unrecognised.
pub proof fn lemma_one_change(missing: Option<String>, markup: String, changes: Seq<HtmlChange>)
    ensures
        changes_summary(seq![HtmlChange::NotPresent { missing, added: Some(markup) }])
            == (match upload_line(parsed_elements(markup@)) {
                Some(line) => line,
                None => Seq::<char>::empty(),
            }),
        unrecognised_markups(seq![HtmlChange::NotPresent { missing, added: Some(markup) }])
            == (if last_span_text(parsed_elements(markup@), "instancename"@).len() > 0
                && last_span_text(parsed_elements(markup@), "accesshide "@).len() > 0 {
                Seq::<Seq<char>>::empty()
            } else {
                seq![markup@]
            }),
        changes_summary(seq![HtmlChange::NotPresent { missing, added: None }]) == Seq::<char>::empty(),
        unrecognised_markups(seq![HtmlChange::NotPresent { missing, added: None }]) == Seq::<Seq<char>>::empty(),
        changes_summary(seq![HtmlChange::NodeType]) == Seq::<char>::empty(),
        changes_summary(seq![HtmlChange::NodeName]) == Seq::<char>::empty(),
        changes_summary(seq![HtmlChange::NodeAttributes]) == Seq::<char>::empty(),
        changes_summary(seq![HtmlChange::NodeText]) == Seq::<char>::empty(),
        unrecognised_markups(seq![HtmlChange::NodeType]) == Seq::<Seq<char>>::empty(),
        unrecognised_markups(seq![HtmlChange::NodeName]) == Seq::<Seq<char>>::empty(),
        unrecognised_markups(seq![HtmlChange::NodeAttributes]) == Seq::<Seq<char>>::empty(),
        unrecognised_markups(seq![HtmlChange::NodeText]) == Seq::<Seq<char>>::empty(),
        upload_line(parsed_elements(markup@)) is Some ==> unrecognised_markups(
            seq![HtmlChange::NotPresent { missing, added: Some(markup) }],
        ) == Seq::<Seq<char>>::empty(),
        user_diff_spec(changes) matches Some(text) ==> text == changes_summary(changes) && text.len() > 0,
        user_diff_spec(changes) is None ==> changes_summary(changes) == Seq::<char>::empty(),
{
    let c = HtmlChange::NotPresent { missing, added: Some(markup) };
    let sq = seq![c];
    assert(sq.last() == c);
    assert(sq.drop_last() =~= Seq::<HtmlChange>::empty());
    assert(changes_summary(sq) == changes_summary(Seq::<HtmlChange>::empty()) + change_line(c));
    assert(unrecognised_markups(Seq::<HtmlChange>::empty()) == Seq::<Seq<char>>::empty());
    assert(unrecognised_markups(sq) == (if is_unrecognised(parsed_elements(markup@)) {
        Seq::<Seq<char>>::empty().push(markup@)
    } else {
        Seq::<Seq<char>>::empty()
    }));
    assert(seq![HtmlChange::NotPresent { missing, added: None }].drop_last() =~= Seq::<HtmlChange>::empty());
    assert(seq![HtmlChange::NodeType].drop_last() =~= Seq::<HtmlChange>::empty());
    assert(seq![HtmlChange::NodeName].drop_last() =~= Seq::<HtmlChange>::empty());
    assert(seq![HtmlChange::NodeAttributes].drop_last() =~= Seq::<HtmlChange>::empty());
    assert(seq![HtmlChange::NodeText].drop_last() =~= Seq::<HtmlChange>::empty());
    let line = upload_line(parsed_elements(markup@));
    match line {
        Some(l) => {
            assert(Seq::<char>::empty() + l =~= l);
        },
        None => {
            assert(Seq::<char>::empty() + Seq::<char>::empty() =~= Seq::<char>::empty());
        },
    }
    assert(Seq::<Seq<char>>::empty().push(markup@) =~= seq![markup@]);
    assert(Seq::<char>::empty() + Seq::<char>::empty() =~= Seq::<char>::empty());
}

/// A course page is read element by element. An empty page is no course
/// page. An `h1` names the course with its text (a page whose last `h1` is
/// empty is no course page); an element with any other tag leaves the name,
/// and whether the page is a course page, as they were. The `div` whose id
/// is `page-content` gives the content; any other element leaves it as it
/// was. The course keeps the id and address it was asked for.
pub proof fn lemma_course_page_reading(id: u32, url: Seq<char>, els: Seq<HtmlElement>, e: HtmlElement)
    ensures
        course_of_page(id, url, Seq::<HtmlElement>::empty()) == Err::<CourseView, MoodleErr>(MoodleErr::CourseNotFound),
        ({
            let before = course_of_page(id, url, els);
            let after = course_of_page(id, url, els.push(e));
            &&& after matches Ok(c) ==> c.id == id && c.url == url
            &&& e.tag@ == "h1"@ ==> (after is Ok <==> e.text@.len() > 0)
            &&& e.tag@ == "h1"@ ==> (after matches Ok(c) ==> c.name == e.text@)
            &&& e.tag@ != "h1"@ ==> (after is Ok <==> before is Ok)
            &&& e.tag@ != "h1"@ ==> (after matches Ok(c) ==> (before matches Ok(b) && c.name == b.name))
            &&& (e.tag@ == "div"@ && attr_or_empty(e.id) == "page-content"@)
                ==> (after matches Ok(c) ==> c.content == e.markup@)
            &&& !(e.tag@ == "div"@ && attr_or_empty(e.id) == "page-content"@)
                ==> (after matches Ok(c) ==> (before matches Ok(b) ==> c.content == b.content))
        }),
{
    let all = els.push(e);
    assert(all.drop_last() =~= els);
    assert(all.last() == e);
}

/// An update to a fetched course keeps the snapshot's id, name and address
/// and leaves it with the fetched content; a failed fetch changes nothing.
pub proof fn lemma_update_takes_content(origin: CourseView, target: Result<CourseView, MoodleErr>)
    ensures
        course_after_update(origin, target).id == origin.id,
        course_after_update(origin, target).name == origin.name,
        course_after_update(origin, target).url == origin.url,
        match target {
            Ok(t) => course_after_update(origin, target).content == t.content,
            Err(_) => course_after_update(origin, target) == origin,
        },
{
}

/// Updating twice to the same fetched course reports nothing the second
/// time and changes nothing more.
pub proof fn lemma_update_settles(
    origin: CourseView,
    target: CourseView,
    changes: Seq<HtmlChange>,
)
    ensures
        ({
            let once = course_after_update(origin, Ok(target));
            &&& course_after_update(once, Ok(target)) == once
            &&& update_report(once, Ok(target), changes) == Ok::<Option<Seq<char>>, MoodleErr>(None)
        }),
{
}

/// An update is reported only where the fetched content differs from the
/// snapshot's.
pub proof fn lemma_update_reported_only_on_change(
    origin: CourseView,
    target: CourseView,
    changes: Seq<HtmlChange>,
)
    ensures
        update_report(origin, Ok(target), changes) matches Ok(Some(_)) ==> target.content != origin.content,
        target.content == origin.content ==> course_after_update(origin, Ok(target)) == origin,
{
}

/// A check is consistent with the session: a check that probes, or that
/// ended ready, goes with a held client.
pub open spec fn check_consistent(state: MoodleState, check: SessionCheck) -> bool {
    (check is Probing || check == SessionCheck::Done(Ok(()))) ==> state is MaybeLoggedIn
}

/// A measure of the requests a check may still make.
pub open spec fn check_measure(check: SessionCheck) -> nat {
    match check {
        SessionCheck::Probing => 4,
        SessionCheck::LoggingIn { failures } => if failures < 3 { (3 - failures) as nat } else { 0 },
        SessionCheck::Done(_) => 0,
    }
}

/// The event answers the request the check asks for.
pub open spec fn answers(check: SessionCheck, event: SessionEvent) -> bool {
    match check {
        SessionCheck::Probing => event is Probed,
        SessionCheck::LoggingIn { .. } => event is LoggedIn,
        SessionCheck::Done(_) => false,
    }
}

/// A check begins consistent with the session, and stays so whatever comes
/// in: it ends ready only with a held client.
pub proof fn lemma_check_stays_consistent(state: MoodleState, check: SessionCheck, event: SessionEvent)
    requires
        check_consistent(state, check),
    ensures
        check_consistent(state_after(state, check, event), next_check(check, event)),
        match state {
            MoodleState::Unknown => check_consistent(state, SessionCheck::LoggingIn { failures: 0 }),
            MoodleState::MaybeLoggedIn { .. } => check_consistent(state, SessionCheck::Probing),
        },
{
}

/// Every answer brings a check closer to its end, and a check starts with at
/// most one probe and three logins ahead: a check makes at most four
/// requests, of which at most three logins. Events that answer nothing
/// change nothing.
pub proof fn lemma_check_ends(check: SessionCheck, event: SessionEvent)
    requires
        check matches SessionCheck::LoggingIn { failures } ==> failures < 3,
    ensures
        answers(check, event) ==> check_measure(next_check(check, event)) < check_measure(check),
        !answers(check, event) ==> next_check(check, event) == check,
        next_check(check, event) matches SessionCheck::LoggingIn { failures } ==> failures < 3,
        check_measure(SessionCheck::Probing) == 4,
        check_measure(SessionCheck::LoggingIn { failures: 0 }) == 3,
{
}


/// The check that begins on a session: a held client is probed first;
/// without one, logins are tried.
pub open spec fn begin_check_spec(state: MoodleState) -> SessionCheck {
    match state {
        MoodleState::Unknown => SessionCheck::LoggingIn { failures: 0 },
        MoodleState::MaybeLoggedIn { .. } => SessionCheck::Probing,
    }
}

/// The context and the check after the events `events` came in, one after
/// the other, starting from `ctx` and `check`.
pub open spec fn run_check(ctx: MoodleContext, check: SessionCheck, events: Seq<SessionEvent>) -> (MoodleContext, SessionCheck)
    decreases events.len(),
{
    if events.len() == 0 {
        (ctx, check)
    } else {
        run_check(ctx.after_event(check, events[0]), next_check(check, events[0]), events.drop_first())
    }
}

/// The session was left as it was, or holds the client of a successful
/// login among `events`.
pub open spec fn kept_or_logged_in(before: MoodleState, after: MoodleState, events: Seq<SessionEvent>) -> bool {
    after == before || exists|i: int| 0 <= i < events.len() && (#[trigger] events[i] matches SessionEvent::LoggedIn(Some(client))
        && after == (MoodleState::MaybeLoggedIn { client }))
}

/// What any run of events does to a check and its context.
pub proof fn lemma_run_check(ctx: MoodleContext, check: SessionCheck, events: Seq<SessionEvent>)
    ensures
        run_check(ctx, check, events).0.auth() == ctx.auth(),
        kept_or_logged_in(ctx.state(), run_check(ctx, check, events).0.state(), events),
        check is Done ==> run_check(ctx, check, events) == (ctx, check),
        (!(check is Done) && (run_check(ctx, check, events).1 matches SessionCheck::Done(Err(_))))
            ==> run_check(ctx, check, events).0.state() == ctx.state(),
        check_consistent(ctx.state(), check) ==> check_consistent(
            run_check(ctx, check, events).0.state(),
            run_check(ctx, check, events).1,
        ),
    decreases events.len(),
{
    if events.len() > 0 {
        let e = events[0];
        let rest = events.drop_first();
        let c1 = ctx.after_event(check, e);
        let k1 = next_check(check, e);
        ctx.lemma_after_event(check, e);
        lemma_run_check(c1, k1, rest);
        if check_consistent(ctx.state(), check) {
            lemma_check_stays_consistent(ctx.state(), check, e);
        }
        let c2 = run_check(c1, k1, rest).0;
        if c2.state() != ctx.state() {
            if c1.state() != ctx.state() {
                // Only a successful login changes the session, and it ends the check.
                assert(k1 is Done);
                assert(c2 == c1);
                assert(events[0] == e);
            } else {
                let i = choose|i: int| 0 <= i < rest.len() && (#[trigger] rest[i] matches SessionEvent::LoggedIn(Some(client))
                    && c2.state() == (MoodleState::MaybeLoggedIn { client }));
                assert(events[i + 1] == rest[i]);
            }
        }
    }
}

/// A whole session check, begun as `begin_check` begins it and fed any
/// events: the login configuration never changes; a check that fails leaves
/// the session as it was; a check that ends ready holds a client, either the
/// one it had (after a probe answered 200) or that of a successful login; a
/// session that held a client still holds one.
pub proof fn lemma_whole_check(ctx: MoodleContext, events: Seq<SessionEvent>)
    ensures
        ({
            let (after, end) = run_check(ctx, begin_check_spec(ctx.state()), events);
            &&& after.auth() == ctx.auth()
            &&& (end matches SessionCheck::Done(Err(_))) ==> after.state() == ctx.state()
            &&& end == SessionCheck::Done(Ok(())) ==> after.state() is MaybeLoggedIn
            &&& kept_or_logged_in(ctx.state(), after.state(), events)
            &&& ctx.state() is MaybeLoggedIn ==> after.state() is MaybeLoggedIn
        }),
{
    lemma_run_check(ctx, begin_check_spec(ctx.state()), events);
}

/// `n` failed logins, one after the other.
pub open spec fn failed_logins(n: nat) -> Seq<SessionEvent> {
    Seq::new(n, |i: int| SessionEvent::LoggedIn(None))
}

proof fn lemma_failed_logins(ctx: MoodleContext, failures: u32, n: nat)
    requires
        failures < 3,
    ensures
        run_check(ctx, SessionCheck::LoggingIn { failures }, failed_logins(n)).1 == (if failures + n < 3 {
            SessionCheck::LoggingIn { failures: (failures + n) as u32 }
        } else {
            SessionCheck::Done(Err(MoodleErr::Login))
        }),
    decreases n,
{
    if n > 0 {
        let evs = failed_logins(n);
        let check = SessionCheck::LoggingIn { failures };
        assert(evs[0] == SessionEvent::LoggedIn(None));
        assert(evs.drop_first() =~= failed_logins((n - 1) as nat));
        let c1 = ctx.after_event(check, evs[0]);
        if failures >= 2 {
            lemma_run_check(c1, SessionCheck::Done(Err(MoodleErr::Login)), failed_logins((n - 1) as nat));
        } else {
            lemma_failed_logins(c1, (failures + 1) as u32, (n - 1) as nat);
        }
    }
}

proof fn lemma_login_after_failures(ctx: MoodleContext, failures: u32, n: nat, client: reqwest::Client)
    requires
        failures + n < 3,
    ensures
        run_check(ctx, SessionCheck::LoggingIn { failures }, failed_logins(n).push(SessionEvent::LoggedIn(Some(client))))
            == (MoodleContext { auth: ctx.auth, state: MoodleState::MaybeLoggedIn { client } }, SessionCheck::Done(Ok(()))),
    decreases n,
{
    let evs = failed_logins(n).push(SessionEvent::LoggedIn(Some(client)));
    let check = SessionCheck::LoggingIn { failures };
    let c1 = ctx.after_event(check, evs[0]);
    if n == 0 {
        assert(evs[0] == SessionEvent::LoggedIn(Some(client)));
        assert(evs.drop_first() =~= Seq::<SessionEvent>::empty());
        assert(run_check(c1, SessionCheck::Done(Ok(())), Seq::<SessionEvent>::empty()) == (c1, SessionCheck::Done(Ok(()))));
        assert(c1 == (MoodleContext { auth: ctx.auth, state: MoodleState::MaybeLoggedIn { client } }));
    } else {
        assert(evs[0] == SessionEvent::LoggedIn(None));
        assert(evs.drop_first() =~= failed_logins((n - 1) as nat).push(SessionEvent::LoggedIn(Some(client))));
        assert(c1 == ctx);
        assert(next_check(check, evs[0]) == SessionCheck::LoggingIn { failures: (failures + 1) as u32 });
        lemma_login_after_failures(ctx, (failures + 1) as u32, (n - 1) as nat, client);
    }
}

/// A check that has to log in, whether no client was held or the home page
/// answered the held client's probe with any status but 200, tries up to
/// three logins: after each of the first two failed logins it asks to log
/// in again, the third ends it with a login error, and a successful login
/// among them ends it ready with that login's client. A refused probe thus
/// leads to the very check that begins without a client.
pub proof fn lemma_three_logins(ctx: MoodleContext, status: u16, n: nat, client: reqwest::Client)
    requires
        status != 200,
    ensures
        next_check(SessionCheck::Probing, SessionEvent::Probed(Some(status))) == begin_check_spec(MoodleState::Unknown),
        action_of(run_check(ctx, begin_check_spec(MoodleState::Unknown), failed_logins(n)).1)
            == (if n < 3 { SessionAction::Login } else { SessionAction::Fail(MoodleErr::Login) }),
        action_of(run_check(ctx, SessionCheck::Probing, seq![SessionEvent::Probed(Some(status))] + failed_logins(n)).1)
            == (if n < 3 { SessionAction::Login } else { SessionAction::Fail(MoodleErr::Login) }),
        n < 3 ==> ({
            let (after, end) = run_check(
                ctx,
                SessionCheck::Probing,
                seq![SessionEvent::Probed(Some(status))] + failed_logins(n).push(SessionEvent::LoggedIn(Some(client))),
            );
            &&& action_of(end) == SessionAction::Ready
            &&& after.state() == (MoodleState::MaybeLoggedIn { client })
            &&& after.auth() == ctx.auth()
        }),
{
    let probe = SessionEvent::Probed(Some(status));
    let first = SessionCheck::LoggingIn { failures: 0 };
    assert(ctx.after_event(SessionCheck::Probing, probe) == ctx);
    lemma_failed_logins(ctx, 0, n);
    let evs = seq![probe] + failed_logins(n);
    assert(evs[0] == probe);
    assert(evs.drop_first() =~= failed_logins(n));
    if n < 3 {
        let evs2 = seq![probe] + failed_logins(n).push(SessionEvent::LoggedIn(Some(client)));
        assert(evs2[0] == probe);
        assert(evs2.drop_first() =~= failed_logins(n).push(SessionEvent::LoggedIn(Some(client))));
        lemma_login_after_failures(ctx, 0, n, client);
    }
}

/// A probe of the held client: a home page answered with 200 ends the check
/// ready with that client; a request that failed ends it with a network
/// error; the session is left as it was either way.
pub proof fn lemma_probe_outcomes(ctx: MoodleContext)
    ensures
        ({
            let (after, end) = run_check(ctx, SessionCheck::Probing, seq![SessionEvent::Probed(Some(200))]);
            action_of(end) == SessionAction::Ready && after == ctx
        }),
        ({
            let (after, end) = run_check(ctx, SessionCheck::Probing, seq![SessionEvent::Probed(None)]);
            action_of(end) == SessionAction::Fail(MoodleErr::Network) && after == ctx
        }),
        action_of(begin_check_spec(ctx.state())) == (if ctx.state() is Unknown {
            SessionAction::Login
        } else {
            SessionAction::Probe
        }),
{
    let e1 = seq![SessionEvent::Probed(Some(200))];
    let e2 = seq![SessionEvent::Probed(None)];
    assert(e1.drop_first() =~= Seq::<SessionEvent>::empty());
    assert(e2.drop_first() =~= Seq::<SessionEvent>::empty());
    assert(ctx.after_event(SessionCheck::Probing, e1[0]) == ctx);
    assert(ctx.after_event(SessionCheck::Probing, e2[0]) == ctx);
    assert(run_check(ctx, SessionCheck::Done(Ok(())), Seq::<SessionEvent>::empty()) == (ctx, SessionCheck::Done(Ok(()))));
    assert(run_check(ctx, SessionCheck::Done(Err(MoodleErr::Network)), Seq::<SessionEvent>::empty())
        == (ctx, SessionCheck::Done(Err(MoodleErr::Network))));
}

/// Only a successful login changes the session; probes and failed logins
/// leave it as it was.
pub proof fn lemma_only_login_changes_session(state: MoodleState, check: SessionCheck, event: SessionEvent)
    ensures
        !(event matches SessionEvent::LoggedIn(Some(_))) ==> state_after(state, check, event) == state,
{
}

} // verus!
