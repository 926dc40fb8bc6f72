//! Running totals gathered while records are exported: the number of
//! characters and the number of bytes of content written so far, plus the
//! directory and filename of the most recently produced output file.

use crate::chars::{dec_str, usize_to_string};
use vstd::prelude::*;

verus! {

/// Mutable accumulator updated once per exported record.
pub struct Statistics {
    pub char_count: usize,
    pub array_length: usize,
    pub output_dir: String,
    pub output_filename: String,
}

impl Statistics {
    /// A fresh accumulator: zero counts, empty paths.
    pub fn new() -> (r: Statistics)
        ensures
            r.char_count == 0,
            r.array_length == 0,
            r.output_dir@ == Seq::<char>::empty(),
            r.output_filename@ == Seq::<char>::empty(),
    {
        Statistics {
            char_count: 0,
            array_length: 0,
            output_dir: String::new(),
            output_filename: String::new(),
        }
    }

    /// Record the directory and filename of the file just written.
    pub fn wrap_set(&mut self, output_dir: String, output_filename: String)
        ensures
            final(self).output_dir == output_dir,
            final(self).output_filename == output_filename,
            final(self).char_count == old(self).char_count,
            final(self).array_length == old(self).array_length,
    {
        self.set_output_dir(output_dir);
        self.set_output_filename(output_filename);
    }

    /// Fold one record's character and byte counts into the totals.
    pub fn wrap_add(&mut self, char_count: usize, array_length: usize)
        requires
            old(self).char_count + char_count <= usize::MAX,
            old(self).array_length + array_length <= usize::MAX,
        ensures
            final(self).char_count == old(self).char_count + char_count,
            final(self).array_length == old(self).array_length + array_length,
            final(self).output_dir == old(self).output_dir,
            final(self).output_filename == old(self).output_filename,
    {
        self.add_char_count(char_count);
        self.add_array_length(array_length);
    }

    /// An immutable snapshot of the accumulator for reporting.
    pub fn wrap_get(&self) -> (r: StatsOutput)
        ensures
            r.char_count == self.char_count,
            r.array_length == self.array_length,
            r.output_dir@ == self.output_dir@,
            r.output_filename@ == self.output_filename@,
    {
        let results = (
            self.get_char_count(),
            self.get_array_length(),
            self.get_output_dir(),
            self.get_output_filename(),
        );

        StatsOutput::new(
            results.0,
            results.1,
            results.2.clone(),
            String::from_str(results.3),
        )
    }

    /// Fold in one record's counts and record its output location, in one step.
    pub fn wrap_input(
        &mut self,
        char_count: usize,
        array_length: usize,
        output_dir: String,
        output_filename: String,
    )
        requires
            old(self).char_count + char_count <= usize::MAX,
            old(self).array_length + array_length <= usize::MAX,
        ensures
            final(self).char_count == old(self).char_count + char_count,
            final(self).array_length == old(self).array_length + array_length,
            final(self).output_dir == output_dir,
            final(self).output_filename == output_filename,
    {
        self.add_char_count(char_count);
        self.add_array_length(array_length);
        self.set_output_dir(output_dir);
        self.set_output_filename(output_filename);
    }

    pub fn add_char_count(&mut self, count: usize)
        requires
            old(self).char_count + count <= usize::MAX,
        ensures
            final(self).char_count == old(self).char_count + count,
            final(self).array_length == old(self).array_length,
            final(self).output_dir == old(self).output_dir,
            final(self).output_filename == old(self).output_filename,
    {
        self.char_count += count;
    }

    pub fn add_array_length(&mut self, length: usize)
        requires
            old(self).array_length + length <= usize::MAX,
        ensures
            final(self).array_length == old(self).array_length + length,
            final(self).char_count == old(self).char_count,
            final(self).output_dir == old(self).output_dir,
            final(self).output_filename == old(self).output_filename,
    {
        self.array_length += length;
    }

    pub fn set_output_dir(&mut self, output_dir: String)
        ensures
            final(self).output_dir == output_dir,
            final(self).char_count == old(self).char_count,
            final(self).array_length == old(self).array_length,
            final(self).output_filename == old(self).output_filename,
    {
        self.output_dir = output_dir;
    }

    pub fn set_output_filename(&mut self, output_filename: String)
        ensures
            final(self).output_filename == output_filename,
            final(self).char_count == old(self).char_count,
            final(self).array_length == old(self).array_length,
            final(self).output_dir == old(self).output_dir,
    {
        self.output_filename = output_filename;
    }

    pub fn get_char_count(&self) -> (r: usize)
        ensures
            r == self.char_count,
    {
        self.char_count
    }

    pub fn get_array_length(&self) -> (r: usize)
        ensures
            r == self.array_length,
    {
        self.array_length
    }

    pub fn get_output_dir(&self) -> (r: &String)
        ensures
            r == &self.output_dir,
    {
        &self.output_dir
    }

    pub fn get_output_filename(&self) -> (r: &str)
        ensures
            r@ == self.output_filename@,
    {
        self.output_filename.as_str()
    }
}

/// The one-line report of the running totals.
pub open spec fn statistics_message_spec(s: Statistics) -> Seq<char> {
    ("Statistics: char_count: ")@ + dec_str(s.char_count as int) + (", array_length: ")@ + dec_str(
        s.array_length as int,
    )
}

impl Statistics {
    /// Render the running totals for reporting.
    pub fn message(&self) -> (r: String)
        ensures
            r@ == statistics_message_spec(*self),
    {
        let mut s = String::from_str("Statistics: char_count: ");
        s.append(usize_to_string(self.char_count).as_str());
        s.append(", array_length: ");
        s.append(usize_to_string(self.array_length).as_str());
        s
    }
}

impl Default for Statistics {
    fn default() -> (r: Self)
        ensures
            r.char_count == 0,
            r.array_length == 0,
            r.output_dir@ == Seq::<char>::empty(),
            r.output_filename@ == Seq::<char>::empty(),
    {
        Self::new()
    }
}

/// Read-only snapshot of the accumulator, produced at the end of a run.
pub struct StatsOutput {
    pub char_count: usize,
    pub array_length: usize,
    pub output_dir: String,
    pub output_filename: String,
}

impl StatsOutput {
    pub fn new(
        char_count: usize,
        array_length: usize,
        output_dir: String,
        output_filename: String,
    ) -> (r: StatsOutput)
        ensures
            r.char_count == char_count,
            r.array_length == array_length,
            r.output_dir == output_dir,
            r.output_filename == output_filename,
    {
        StatsOutput {
            char_count,
            array_length,
            output_dir,
            output_filename,
        }
    }

    pub fn get_char_count(&self) -> (r: usize)
        ensures
            r == self.char_count,
    {
        self.char_count
    }

    pub fn get_array_length(&self) -> (r: usize)
        ensures
            r == self.array_length,
    {
        self.array_length
    }

    /// Render the snapshot for reporting.
    pub fn message(&self) -> (r: String)
        ensures
            r@ == stats_output_message_spec(*self),
    {
        let mut s = String::from_str("StatsOutput:\n char_count: ");
        s.append(usize_to_string(self.char_count).as_str());
        s.append(",\n array_length: ");
        s.append(usize_to_string(self.array_length).as_str());
        s.append(",\n output_dir: ");
        s.append(self.output_dir.as_str());
        s.append(",\n output_filename: ");
        s.append(self.output_filename.as_str());
        s.append("\n");
        s
    }
}

/// The multi-line report of a snapshot.
pub open spec fn stats_output_message_spec(s: StatsOutput) -> Seq<char> {
    ("StatsOutput:\n char_count: ")@ + dec_str(s.char_count as int) + (",\n array_length: ")@
        + dec_str(s.array_length as int) + (",\n output_dir: ")@ + s.output_dir@ + (",\n output_filename: ")@
        + s.output_filename@ + ("\n")@
}

} // verus!
