//! Gathers the text of the configuration files into one buffer.
use vstd::prelude::*;
use vstd::string::*;

verus! {

/// Collects configuration text; the files themselves are read by the caller.
pub struct SSHConfigReader {
    buf: String,
}

impl View for SSHConfigReader {
    type V = Seq<char>;

    closed spec fn view(&self) -> Seq<char> {
        self.buf@
    }
}

impl SSHConfigReader {
    pub fn new() -> (r: Self)
        ensures
            r@ == Seq::<char>::empty(),
    {
        Self { buf: String::new() }
    }

    /// Appends the text of one more file after what was gathered so far.
    pub fn push_text(&mut self, text: &str)
        ensures
            final(self)@ == old(self)@ + text@,
    {
        self.buf.append(text);
    }

    pub fn finalize(self) -> (r: String)
        ensures
            r@ == self@,
    {
        self.buf
    }
}

} // verus!
