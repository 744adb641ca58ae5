//! Rendering one new feed item as a standalone document.
//!
//! The file name is derived from the source name and the item title; the
//! content embeds source name, title and body verbatim. Two items with the
//! same title from the same source yield the same file name: the later one
//! overwrites the earlier, a documented limitation.

use vstd::prelude::*;
use vstd::string::StringExecFns;

verus! {

/// One rendered document: where it should be stored (relative to the run's
/// output directory) and what it holds.
#[derive(Debug, Clone)]
pub struct Document {
    pub file_name: String,
    pub content: String,
}

/// The mathematical shape of a document.
pub ghost struct DocumentView {
    pub file_name: Seq<char>,
    pub content: Seq<char>,
}

impl View for Document {
    type V = DocumentView;

    open spec fn view(&self) -> DocumentView {
        DocumentView { file_name: self.file_name@, content: self.content@ }
    }
}

/// The document file name: `<source name>-<title>.html`.
pub open spec fn spec_file_name(name: Seq<char>, title: Seq<char>) -> Seq<char> {
    name + "-"@ + title + ".html"@
}

/// The document text: a minimal HTML page whose heading and title both read
/// `[<source name>]<title>` and whose body is the item body, unescaped.
pub open spec fn spec_content(name: Seq<char>, title: Seq<char>, body: Seq<char>) -> Seq<char> {
    "<!DOCTYPE html>\n<head>\n<meta charset=\"utf-8\">\n<title>["@ + name + "]"@ + title
        + "</title>\n</head>\n<body>\n<h1>["@ + name + "]"@ + title + "</h1>\n"@ + body
        + "\n</body>\n"@
}

/// Builds the document for one renderable item.
pub fn render_document(name: &String, title: &String, body: &String) -> (r: Document)
    ensures
        r@.file_name == spec_file_name(name@, title@),
        r@.content == spec_content(name@, title@, body@),
{
    let mut file_name = String::new();
    file_name.append(name.as_str());
    file_name.append("-");
    file_name.append(title.as_str());
    file_name.append(".html");
    proof {
        assert(file_name@ =~= spec_file_name(name@, title@));
    }
    let mut content = String::new();
    content.append("<!DOCTYPE html>\n<head>\n<meta charset=\"utf-8\">\n<title>[");
    content.append(name.as_str());
    content.append("]");
    content.append(title.as_str());
    content.append("</title>\n</head>\n<body>\n<h1>[");
    content.append(name.as_str());
    content.append("]");
    content.append(title.as_str());
    content.append("</h1>\n");
    content.append(body.as_str());
    content.append("\n</body>\n");
    proof {
        assert(content@ =~= spec_content(name@, title@, body@));
    }
    Document { file_name, content }
}

} // verus!
