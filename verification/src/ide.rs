//! The editor's state and decisions: how the text of a document is cut into
//! highlighted tokens, and what each key does to the command line, the
//! document and the answer shown.
use vstd::prelude::*;
use crate::command::Step;
use crate::data::{render_document, ListData};
use crate::rust_api::doc_of_text;
use crate::semantics::{run_command, Outcome};
use crate::text::{
    char_is_alphabetic, char_is_numeric, str_chars, string_of, unicode_alphabetic, unicode_numeric,
};

verus! {

/// The class of a highlighted token; each class has its own colour.
#[derive(Clone, Copy, Debug, PartialEq, Eq, Structural)]
pub enum TokenKind {
    /// `[` or `]`
    Bracket,
    /// `,`
    Comma,
    /// `::`
    PathSep,
    /// a `:` on its own
    Colon,
    /// `;`
    Semicolon,
    /// a word that holds `:` or `\`
    Keyed,
    /// any other word
    Word,
    /// a run of digits and dots
    Number,
}

/// A highlighted piece of text.
#[derive(Debug)]
pub struct Token {
    pub text: String,
    pub kind: TokenKind,
}

impl View for Token {
    type V = (Seq<char>, TokenKind);

    open spec fn view(&self) -> (Seq<char>, TokenKind) {
        (self.text@, self.kind)
    }
}

/// A character that starts a word.
pub open spec fn word_start(c: char) -> bool {
    unicode_alphabetic(c) || c == '_' || c == '\\'
}

/// A character that continues a word.
pub open spec fn word_part(c: char) -> bool {
    unicode_alphabetic(c) || unicode_numeric(c) || c == '_' || c == '\\' || c == ':'
}

/// A character that continues a number.
pub open spec fn number_part(c: char) -> bool {
    unicode_numeric(c) || c == '.'
}

/// The end of the run of word characters that starts at `j`.
pub open spec fn word_end(s: Seq<char>, j: int) -> int
    decreases s.len() - j,
{
    if 0 <= j < s.len() && word_part(s[j]) {
        word_end(s, j + 1)
    } else {
        j
    }
}

/// The end of the run of number characters that starts at `j`.
pub open spec fn number_end(s: Seq<char>, j: int) -> int
    decreases s.len() - j,
{
    if 0 <= j < s.len() && number_part(s[j]) {
        number_end(s, j + 1)
    } else {
        j
    }
}

/// A run of word characters ends within the text, and all of it is word
/// characters.
pub proof fn lemma_word_end(s: Seq<char>, j: int)
    requires
        0 <= j <= s.len(),
    ensures
        j <= word_end(s, j) <= s.len(),
        forall|k: int| j <= k < word_end(s, j) ==> word_part(#[trigger] s[k]),
    decreases s.len() - j,
{
    if j < s.len() && word_part(s[j]) {
        lemma_word_end(s, j + 1);
    }
}

/// A run of number characters ends within the text, and all of it is
/// number characters.
pub proof fn lemma_number_end(s: Seq<char>, j: int)
    requires
        0 <= j <= s.len(),
    ensures
        j <= number_end(s, j) <= s.len(),
        forall|k: int| j <= k < number_end(s, j) ==> number_part(#[trigger] s[k]),
    decreases s.len() - j,
{
    if j < s.len() && number_part(s[j]) {
        lemma_number_end(s, j + 1);
    }
}

/// The class of a word: `Keyed` when it holds `:` or `\`.
pub open spec fn word_kind(w: Seq<char>) -> TokenKind {
    if w.contains(':') || w.contains('\\') {
        TokenKind::Keyed
    } else {
        TokenKind::Word
    }
}

/// The tokens of `s` from position `i` on. Brackets, commas, `::`, `:` and
/// `;` are tokens of their own; a word starts with a letter, `_` or `\` and
/// runs on over letters, digits, `_`, `\` and `:`; a number starts with a
/// digit and runs on over digits and dots; every other character is passed
/// over.
pub open spec fn tokens_from(s: Seq<char>, i: int) -> Seq<(Seq<char>, TokenKind)>
    decreases s.len() - i,
{
    if i < 0 || i >= s.len() {
        Seq::empty()
    } else {
        let c = s[i];
        if c == '[' || c == ']' {
            seq![(seq![c], TokenKind::Bracket)] + tokens_from(s, i + 1)
        } else if c == ',' {
            seq![(seq![c], TokenKind::Comma)] + tokens_from(s, i + 1)
        } else if c == ':' && i + 1 < s.len() && s[i + 1] == ':' {
            seq![(seq![':', ':'], TokenKind::PathSep)] + tokens_from(s, i + 2)
        } else if c == ':' {
            seq![(seq![c], TokenKind::Colon)] + tokens_from(s, i + 1)
        } else if c == ';' {
            seq![(seq![c], TokenKind::Semicolon)] + tokens_from(s, i + 1)
        } else if word_start(c) {
            let e = word_end(s, i + 1);
            proof {
                lemma_word_end(s, i + 1);
            }
            let w = s.subrange(i, e);
            seq![(w, word_kind(w))] + tokens_from(s, e)
        } else if unicode_numeric(c) {
            let e = number_end(s, i + 1);
            proof {
                lemma_number_end(s, i + 1);
            }
            seq![(s.subrange(i, e), TokenKind::Number)] + tokens_from(s, e)
        } else {
            tokens_from(s, i + 1)
        }
    }
}

/// The views of a sequence of tokens.
pub open spec fn token_views(t: Seq<Token>) -> Seq<(Seq<char>, TokenKind)> {
    t.map_values(|x: Token| x@)
}

fn scan_word(s: &[char], j: usize) -> (e: usize)
    requires
        j <= s@.len(),
    ensures
        e == word_end(s@, j as int),
{
    proof {
        lemma_word_end(s@, j as int);
    }
    let mut k = j;
    while k < s.len()
        invariant
            j <= k <= s@.len(),
            word_end(s@, k as int) == word_end(s@, j as int),
        decreases s@.len() - k,
    {
        let c = s[k];
        if char_is_alphabetic(c) || char_is_numeric(c) || c == '_' || c == '\\' || c == ':' {
            k = k + 1;
        } else {
            return k;
        }
    }
    k
}

fn scan_number(s: &[char], j: usize) -> (e: usize)
    requires
        j <= s@.len(),
    ensures
        e == number_end(s@, j as int),
{
    proof {
        lemma_number_end(s@, j as int);
    }
    let mut k = j;
    while k < s.len()
        invariant
            j <= k <= s@.len(),
            number_end(s@, k as int) == number_end(s@, j as int),
        decreases s@.len() - k,
    {
        let c = s[k];
        if char_is_numeric(c) || c == '.' {
            k = k + 1;
        } else {
            return k;
        }
    }
    k
}

fn has_char_in(s: &[char], c: char) -> (b: bool)
    ensures
        b == s@.contains(c),
{
    let mut k: usize = 0;
    while k < s.len()
        invariant
            k <= s@.len(),
            forall|m: int| 0 <= m < k ==> s@[m] != c,
        decreases s@.len() - k,
    {
        if s[k] == c {
            assert(s@[k as int] == c);
            return true;
        }
        k = k + 1;
    }
    false
}

/// The highlighted tokens of a document's text, in order.
pub fn highlight_tokens(content: &str) -> (r: Vec<Token>)
    ensures
        token_views(r@) == tokens_from(content@, 0),
{
    let chars = str_chars(content);
    let s = chars.as_slice();
    let mut out: Vec<Token> = Vec::new();
    let mut i: usize = 0;
    while i < s.len()
        invariant
            i <= s@.len(),
            s@ == content@,
            token_views(out@) + tokens_from(s@, i as int) == tokens_from(s@, 0),
        decreases s@.len() - i,
    {
        let ghost before = token_views(out@);
        let ghost rest = tokens_from(s@, i as int);
        let c = s[i];
        let next: usize;
        if c == '[' || c == ']' || c == ',' || c == ';' || (c == ':' && !(i + 1 < s.len() && s[i + 1] == ':')) {
            let kind = if c == '[' || c == ']' {
                TokenKind::Bracket
            } else if c == ',' {
                TokenKind::Comma
            } else if c == ';' {
                TokenKind::Semicolon
            } else {
                TokenKind::Colon
            };
            let mut t = String::new();
            t.push(c);
            out.push(Token { text: t, kind });
            next = i + 1;
            proof {
                assert(t@ =~= seq![c]);
            }
        } else if c == ':' {
            let mut t = String::new();
            t.push(':');
            t.push(':');
            out.push(Token { text: t, kind: TokenKind::PathSep });
            next = i + 2;
            proof {
                assert(t@ =~= seq![':', ':']);
            }
        } else if char_is_alphabetic(c) || c == '_' || c == '\\' {
            let e = scan_word(s, i + 1);
            proof {
                lemma_word_end(s@, i + 1);
            }
            let w = string_of(&s[i..e]);
            let kind = if has_char_in(&s[i..e], ':') || has_char_in(&s[i..e], '\\') {
                TokenKind::Keyed
            } else {
                TokenKind::Word
            };
            out.push(Token { text: w, kind });
            next = e;
        } else if char_is_numeric(c) {
            let e = scan_number(s, i + 1);
            proof {
                lemma_number_end(s@, i + 1);
            }
            let w = string_of(&s[i..e]);
            out.push(Token { text: w, kind: TokenKind::Number });
            next = e;
        } else {
            next = i + 1;
        }
        proof {
            assert(token_views(out@) + tokens_from(s@, next as int) =~= before + rest);
        }
        i = next;
    }
    proof {
        assert(token_views(out@) =~= token_views(out@) + tokens_from(s@, i as int));
    }
    out
}

/// A key that the editor reacts to.
#[derive(Clone, Copy, Debug, PartialEq, Eq, Structural)]
pub enum Key {
    Esc,
    Enter,
    Backspace,
    Char(char),
    Other,
}

/// What the editor's loop does after a key.
pub enum Action {
    /// Draw again and wait for the next key.
    Stay,
    /// Leave the editor.
    Quit,
    /// Write this text to the file, read the file back into `content`, and
    /// draw again.
    Save(String),
    /// The command was `exit`: end the program.
    Exit,
    /// The command is one on which the command language panics.
    Abort,
}

/// The editor: the file, its text as last read, the command being typed,
/// the last answer, and the document.
pub struct App {
    pub file_path: String,
    pub content: String,
    pub command: String,
    pub output: String,
    pub data: ListData,
}

/// The prefix of an error answer in the editor.
pub open spec fn error_shown(e: Seq<char>) -> Seq<char> {
    "错误: "@ + e
}

/// `s` without its last character, if it has one.
pub open spec fn without_last(s: Seq<char>) -> Seq<char> {
    if s.len() == 0 {
        s
    } else {
        s.drop_last()
    }
}

impl App {
    /// The editor on a file whose text is `content` (empty if the file could
    /// not be read): the document is the parsed text, or an empty one.
    pub fn new(file_path: &str, content: &str) -> (r: App)
        ensures
            r.file_path@ == file_path@,
            r.content@ == content@,
            r.command@ == Seq::<char>::empty(),
            r.output@ == Seq::<char>::empty(),
            r.data@ == doc_of_text(content@),
    {
        let data = match ListData::from_string(content) {
            Ok(d) => {
                assert(d@.vars =~= Seq::<(Seq<char>, crate::value::Val)>::empty());
                d
            },
            Err(_) => {
                let d = ListData::new();
                assert(d@.vars =~= Seq::<(Seq<char>, crate::value::Val)>::empty());
                assert(d@.items =~= Seq::<crate::value::Val>::empty());
                d
            },
        };
        App {
            file_path: String::from_str(file_path),
            content: String::from_str(content),
            command: String::new(),
            output: String::new(),
            data,
        }
    }

    /// The highlighted tokens of the text.
    pub fn highlight(&self) -> (r: Vec<Token>)
        ensures
            token_views(r@) == tokens_from(self.content@, 0),
    {
        highlight_tokens(self.content.as_str())
    }

    /// Reacts to a key. `Esc` leaves; a character is typed onto the command
    /// and `Backspace` takes the last one off; `Enter` runs the command on
    /// the document: its answer is shown and the document is to be saved, or
    /// its error is shown; either way the command line is emptied. A command
    /// that ends the program or panics comes back as `Exit` or `Abort`.
    pub fn handle_key(&mut self, key: Key) -> (r: Action)
        ensures
            final(self).file_path@ == old(self).file_path@,
            final(self).content@ == old(self).content@,
            match key {
                Key::Esc => r is Quit && final(self).command@ == old(self).command@
                    && final(self).output@ == old(self).output@ && final(self).data@ == old(self).data@,
                Key::Char(c) => r is Stay && final(self).command@ == old(self).command@.push(c)
                    && final(self).output@ == old(self).output@ && final(self).data@ == old(self).data@,
                Key::Backspace => r is Stay && final(self).command@ == without_last(old(self).command@)
                    && final(self).output@ == old(self).output@ && final(self).data@ == old(self).data@,
                Key::Other => r is Stay && final(self).command@ == old(self).command@
                    && final(self).output@ == old(self).output@ && final(self).data@ == old(self).data@,
                Key::Enter => match run_command(old(self).data@, old(self).command@) {
                    Outcome::Exit => r is Exit,
                    Outcome::Abort => r is Abort,
                    Outcome::Reply(d, Ok(out)) => final(self).data@ == d && final(self).output@ == out
                        && final(self).command@ == Seq::<char>::empty()
                        && (r matches Action::Save(t) && t@ == render_document(d.items)),
                    Outcome::Reply(d, Err(e)) => r is Stay && final(self).data@ == d
                        && final(self).output@ == error_shown(e)
                        && final(self).command@ == Seq::<char>::empty(),
                },
            },
    {
        match key {
            Key::Esc => Action::Quit,
            Key::Other => Action::Stay,
            Key::Char(c) => {
                self.command.push(c);
                Action::Stay
            },
            Key::Backspace => {
                let cs = str_chars(self.command.as_str());
                if cs.len() > 0 {
                    self.command = string_of(&cs.as_slice()[0..cs.len() - 1]);
                    assert(self.command@ =~= old(self).command@.drop_last());
                }
                Action::Stay
            },
            Key::Enter => {
                let step = self.data.run_command(self.command.as_str());
                match step {
                    Step::Exit => Action::Exit,
                    Step::Abort => Action::Abort,
                    Step::Reply(Ok(out)) => {
                        self.output = out;
                        self.command = String::new();
                        Action::Save(self.data.to_string())
                    },
                    Step::Reply(Err(e)) => {
                        let mut shown = String::from_str("错误: ");
                        shown.append(e.as_str());
                        self.output = shown;
                        self.command = String::new();
                        Action::Stay
                    },
                }
            },
        }
    }
}

} // verus!
