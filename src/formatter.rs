use vstd::prelude::*;
use vstd::string::*;

verus! {

/// `n` spaces.
pub open spec fn spaces(n: nat) -> Seq<char> {
    Seq::new(n, |i: int| ' ')
}

/// One line of text at indentation `ind`.
pub open spec fn text_line(ind: nat, s: Seq<char>) -> Seq<char> {
    spaces(ind) + s + seq!['\n']
}

/// Collects indented lines of C source text.
pub struct CFormatter {
    pub text: String,
    pub indentation: usize,
}

impl CFormatter {
    pub fn new() -> (r: CFormatter)
        ensures
            r.text@.len() == 0,
            r.indentation == 0,
    {
        CFormatter { text: String::new(), indentation: 0 }
    }

    /// Indent the following lines four more spaces.
    pub fn indent(&mut self)
        requires
            old(self).indentation <= usize::MAX - 4,
        ensures
            final(self).indentation == old(self).indentation + 4,
            final(self).text == old(self).text,
    {
        self.indentation += 4;
    }

    /// Indent the following lines four spaces less, but not below zero.
    pub fn unindent(&mut self)
        ensures
            final(self).indentation == if old(self).indentation >= 4 { old(self).indentation - 4 } else { 0 },
            final(self).text == old(self).text,
    {
        if self.indentation >= 4 {
            self.indentation -= 4;
        } else {
            self.indentation = 0;
        }
    }

    /// Append `line` at the current indentation, and a line break.
    pub fn write(&mut self, line: &str)
        ensures
            final(self).text@ == old(self).text@ + text_line(old(self).indentation as nat, line@),
            final(self).indentation == old(self).indentation,
    {
        proof {
            reveal_strlit(" ");
            reveal_strlit("\n");
        }
        let ghost t0 = self.text@;
        let mut i: usize = 0;
        while i < self.indentation
            invariant
                i <= self.indentation,
                self.indentation == old(self).indentation,
                self.text@ == t0 + spaces(i as nat),
            decreases self.indentation - i,
        {
            proof {
                reveal_strlit(" ");
            }
            self.text.append(" ");
            i += 1;
            assert(self.text@ =~= t0 + spaces(i as nat));
        }
        self.text.append(line);
        self.text.append("\n");
        assert(self.text@ =~= t0 + text_line(old(self).indentation as nat, line@));
    }

    /// Append an empty line.
    pub fn blankline(&mut self)
        ensures
            final(self).text@ == old(self).text@ + seq!['\n'],
            final(self).indentation == old(self).indentation,
    {
        proof {
            reveal_strlit("\n");
        }
        self.text.append("\n");
    }
}

} // verus!
