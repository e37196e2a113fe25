//! Where each line of the audit trail goes.

use crate::text;
use vstd::prelude::*;
use vstd::string::*;

verus! {

/// The name of a day's file.
pub open spec fn file_name(prefix: Seq<char>, day: Seq<char>) -> Seq<char> {
    prefix + "_"@ + day + ".jsonl"@
}

/// The day that a writer's file is for.
pub struct JsonlWriter {
    pub prefix: String,
    pub day: String,
}

/// What a writer does with a line: the file to open first, where a new day has begun, and the text
/// to append.
#[derive(Debug)]
pub struct Append {
    pub open: Option<String>,
    pub text: String,
}

impl JsonlWriter {
    /// A writer whose file is for a given day.
    pub fn new(prefix: &str, day: &str) -> (r: Self)
        ensures
            r.prefix@ == prefix@,
            r.day@ == day@,
    {
        JsonlWriter { prefix: prefix.to_owned(), day: day.to_owned() }
    }

    /// The name of the file of a day.
    pub fn file_for(&self, day: &str) -> (r: String)
        ensures
            r@ == file_name(self.prefix@, day@),
    {
        let mut r: String = text::join(self.prefix.as_str(), "_");
        r.append(day);
        r.append(".jsonl");
        r
    }

    /// What to do with a line on a given day. Where a file has to be opened the writer keeps its
    /// day until [`JsonlWriter::opened`] says that it was.
    pub fn write_line(&self, day: &str, line: &str) -> (r: Append)
        ensures
            r.text@ == line@ + "\n"@,
            match r.open {
                Some(name) => day@ != self.day@ && name@ == file_name(self.prefix@, day@),
                None => day@ == self.day@,
            },
    {
        let open: Option<String> = if text::same_text(day, self.day.as_str()) {
            None
        } else {
            Some(self.file_for(day))
        };
        Append { open, text: text::join(line, "\n") }
    }

    /// Notes that the file of a day has been opened.
    pub fn opened(&mut self, day: &str)
        ensures
            final(self).prefix == old(self).prefix,
            final(self).day@ == day@,
    {
        self.day = day.to_owned();
    }
}

/// Files of different days, or of records of different types, have different names, where all days
/// are written with the same number of characters.
pub proof fn lemma_file_names_differ(
    prefix: Seq<char>,
    day: Seq<char>,
    other_prefix: Seq<char>,
    other_day: Seq<char>,
)
    requires
        file_name(prefix, day) == file_name(other_prefix, other_day),
        day.len() == other_day.len(),
    ensures
        prefix == other_prefix,
        day == other_day,
{
    reveal_strlit("_");
    reveal_strlit(".jsonl");
    let n = file_name(prefix, day);
    let m = file_name(other_prefix, other_day);
    assert(n.len() == m.len());
    assert(prefix =~= n.take(prefix.len() as int));
    assert(other_prefix =~= m.take(other_prefix.len() as int));
    assert(day =~= n.subrange(
        prefix.len() as int + 1,
        prefix.len() as int + 1 + day.len(),
    ));
    assert(other_day =~= m.subrange(
        other_prefix.len() as int + 1,
        other_prefix.len() as int + 1 + day.len(),
    ));
}

} // verus!
