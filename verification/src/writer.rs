//! Writing events to files.
use vstd::prelude::*;
use vstd::string::StringExecFns;
use crate::compression::Compression;
use crate::event::Event;
use crate::number::Real;

verus! {

/// The format of an event file.
#[derive(Copy, Clone, Debug, PartialEq, Eq, Structural, Hash)]
pub enum OutputFormat {
    /// The HepMC 2 format.
    HepMC2,
    /// ROOT ntuples.
    Root,
}

impl Default for OutputFormat {
    fn default() -> (r: Self)
        ensures
            r == OutputFormat::HepMC2,
    {
        OutputFormat::HepMC2
    }
}

impl OutputFormat {
    /// The name of the format in lower case.
    pub open spec fn name(self) -> Seq<char> {
        match self {
            OutputFormat::HepMC2 => "hepmc2"@,
            OutputFormat::Root => "root"@,
        }
    }

    /// The name of the format in lower case.
    pub fn to_string(&self) -> (r: String)
        ensures
            r@ == self.name(),
    {
        match self {
            OutputFormat::HepMC2 => "hepmc2".to_owned(),
            OutputFormat::Root => "root".to_owned(),
        }
    }
}

/// The decimal digits of a number, the most significant first.
pub open spec fn decimal(n: nat) -> Seq<char>
    decreases n,
{
    if n < 10 {
        seq![digit(n)]
    } else {
        decimal(n / 10).push(digit(n % 10))
    }
}

/// The character of a decimal digit.
pub open spec fn digit(d: nat) -> char {
    if d == 0 {
        '0'
    } else if d == 1 {
        '1'
    } else if d == 2 {
        '2'
    } else if d == 3 {
        '3'
    } else if d == 4 {
        '4'
    } else if d == 5 {
        '5'
    } else if d == 6 {
        '6'
    } else if d == 7 {
        '7'
    } else if d == 8 {
        '8'
    } else {
        '9'
    }
}

/// The decimal digit `d` as text.
fn digit_text(d: usize) -> (r: &'static str)
    requires
        d < 10,
    ensures
        r@ == seq![digit(d as nat)],
{
    proof {
        reveal_strlit("0");
        reveal_strlit("1");
        reveal_strlit("2");
        reveal_strlit("3");
        reveal_strlit("4");
        reveal_strlit("5");
        reveal_strlit("6");
        reveal_strlit("7");
        reveal_strlit("8");
        reveal_strlit("9");
    }
    let r = if d == 0 {
        "0"
    } else if d == 1 {
        "1"
    } else if d == 2 {
        "2"
    } else if d == 3 {
        "3"
    } else if d == 4 {
        "4"
    } else if d == 5 {
        "5"
    } else if d == 6 {
        "6"
    } else if d == 7 {
        "7"
    } else if d == 8 {
        "8"
    } else {
        "9"
    };
    assert(r@ =~= seq![digit(d as nat)]);
    r
}

/// Append the decimal digits of `n` to `text`.
fn push_decimal(text: &mut String, n: usize)
    ensures
        final(text)@ == old(text)@ + decimal(n as nat),
    decreases n,
{
    if n >= 10 {
        push_decimal(text, n / 10);
    }
    text.append(digit_text(n % 10));
    assert(text@ =~= old(text)@ + decimal(n as nat));
}

/// The name of the file to which the events of the cell number `cellnum` are
/// written: `cell`, the number, a dot, and the name of the format.
pub open spec fn spec_cell_file_name(cellnum: usize, format: OutputFormat) -> Seq<char> {
    "cell"@ + decimal(cellnum as nat) + "."@ + format.name()
}

/// The name of the file to which the events of the cell number `cellnum` are
/// written.
pub fn cell_file_name(cellnum: usize, format: OutputFormat) -> (r: String)
    ensures
        r@ == spec_cell_file_name(cellnum, format),
{
    let mut r = "cell".to_owned();
    push_decimal(&mut r, cellnum);
    r.append(".");
    let name = format.to_string();
    r.append(name.as_str());
    r
}

/// `targets` says for each record of the input which event is written with
/// it: the record number `i` goes with the first event whose id is `i`, if
/// there is one. The last record that is listed goes with an event.
pub open spec fn is_write_plan(events: Seq<Event>, targets: Seq<Option<usize>>) -> bool {
    &&& forall|q: int| 0 <= q < events.len() ==> (#[trigger] events[q]).id < targets.len()
    &&& targets.len() > 0 ==> targets[targets.len() - 1].is_some()
    &&& forall|i: int|
        0 <= i < targets.len() ==> match #[trigger] targets[i] {
            Some(pos) => pos < events.len() && events[pos as int].id == i && forall|e: int|
                0 <= e < pos ==> (#[trigger] events[e]).id != i,
            None => forall|q: int| 0 <= q < events.len() ==> (#[trigger] events[q]).id != i,
        }
}

/// Line the events up with the records of the input from which they were
/// made, see [`is_write_plan`]. Returns `None` if the largest id is the
/// largest number that the machine can hold.
pub fn record_targets(events: &[Event]) -> (r: Option<Vec<Option<usize>>>)
    ensures
        r.is_some() == forall|q: int| 0 <= q < events.len() ==> (#[trigger] events[q]).id < usize::MAX,
        r matches Some(targets) ==> is_write_plan(events@, targets@),
{
    let n = events.len();
    // the number of records to read: one more than the largest id
    let mut len: usize = 0;
    let mut q: usize = 0;
    while q < n
        invariant
            q <= n,
            n == events.len(),
            forall|e: int| 0 <= e < q ==> (#[trigger] events[e]).id < len,
            len > 0 ==> exists|e: int| 0 <= e < q && (#[trigger] events[e]).id == len - 1,
        decreases n - q,
    {
        if events[q].id >= len {
            if events[q].id == usize::MAX {
                return None;
            }
            len = events[q].id + 1;
        }
        q += 1;
    }
    let mut targets: Vec<Option<usize>> = Vec::new();
    while targets.len() < len
        invariant
            targets.len() <= len,
            forall|i: int| 0 <= i < targets.len() ==> (#[trigger] targets[i]).is_none(),
        decreases len - targets.len(),
    {
        targets.push(None);
    }
    let mut q: usize = 0;
    while q < n
        invariant
            q <= n,
            n == events.len(),
            targets.len() == len,
            forall|e: int| 0 <= e < n ==> (#[trigger] events[e]).id < len,
            forall|i: int|
                0 <= i < len ==> match #[trigger] targets[i] {
                    Some(pos) => pos < q && events[pos as int].id == i && forall|e: int|
                        0 <= e < pos ==> (#[trigger] events[e]).id != i,
                    None => forall|e: int| 0 <= e < q ==> (#[trigger] events[e]).id != i,
                },
        decreases n - q,
    {
        let id = events[q].id;
        if targets[id].is_none() {
            targets[id] = Some(q);
        }
        q += 1;
    }
    proof {
        if len > 0 {
            let e = choose|e: int| 0 <= e < n && (#[trigger] events[e]).id == len - 1;
            assert(targets[len - 1].is_some());
        }
    }
    Some(targets)
}

/// The weight `w` of a record, scaled by `ratio`. A weight of zero stays.
pub open spec fn scaled_weight(w: Real, ratio: Real) -> Real {
    if w.key() == 0 {
        w
    } else {
        w.spec_mul(ratio)
    }
}

/// The weights of a record after its central weight was replaced by
/// `central`. The other weights are scaled by the ratio of the new to the old
/// central weight, unless the old central weight is zero.
pub open spec fn spec_rescaled(weights: Seq<Real>, central: Real) -> Seq<Real> {
    Seq::new(
        weights.len(),
        |i: int|
            if i == 0 {
                central
            } else if weights[0].key() == 0 {
                weights[i]
            } else {
                scaled_weight(weights[i], central.spec_div(weights[0]))
            },
    )
}

/// Replace the central weight of a record by `central` and scale its other
/// weights by the same ratio, see [`spec_rescaled`].
pub fn rescale_weights(weights: &mut Vec<Real>, central: Real)
    requires
        old(weights).len() > 0,
        forall|i: int| 0 <= i < old(weights).len() ==> (#[trigger] old(weights)[i]).is_finite(),
        central.wf(),
    ensures
        final(weights)@ == spec_rescaled(old(weights)@, central),
        forall|i: int| 0 <= i < final(weights).len() ==> (#[trigger] final(weights)[i]).wf(),
{
    let n = weights.len();
    let old_central = weights[0];
    weights[0] = central;
    if !old_central.is_zero() {
        let ratio = central.div(old_central);
        let mut i: usize = 1;
        while i < n
            invariant
                1 <= i <= n,
                n == weights.len(),
                n == old(weights).len(),
                old_central == old(weights)[0],
                old_central.key() != 0,
                ratio == central.spec_div(old_central),
                ratio.wf(),
                forall|k: int| 0 <= k < n ==> (#[trigger] old(weights)[k]).is_finite(),
                forall|k: int| 0 <= k < i ==> #[trigger] weights[k] == spec_rescaled(old(weights)@, central)[k],
                forall|k: int| i <= k < n ==> weights[k] == old(weights)[k],
                forall|k: int| 0 <= k < i ==> (#[trigger] weights[k]).wf(),
            decreases n - i,
        {
            let w = weights[i];
            assert(old(weights)[i as int].is_finite());
            if !w.is_zero() {
                weights[i] = w.mul(ratio);
            }
            i += 1;
        }
    }
    assert(weights@ =~= spec_rescaled(old(weights)@, central));
}

/// Writes events to a file, after the records of the input from which they
/// were made.
#[derive(Debug)]
pub struct FileWriter {
    filename: String,
    format: OutputFormat,
    compression: Option<Compression>,
    dump_cells: bool,
}

/// Settings of a [`FileWriter`].
#[derive(Debug)]
pub struct FileWriterBuilder {
    filename: Option<String>,
    format: OutputFormat,
    compression: Option<Compression>,
    dump_cells: bool,
}

impl FileWriterBuilder {
    /// The settings as a tuple: file name, format, compression, and whether
    /// the events of each cell are written to a file of the cell.
    pub closed spec fn settings(&self) -> (Option<String>, OutputFormat, Option<Compression>, bool) {
        (self.filename, self.format, self.compression, self.dump_cells)
    }

    /// Set the name of the output file.
    pub fn filename(self, filename: String) -> (r: Self)
        ensures
            r.settings() == (Some(filename), self.settings().1, self.settings().2, self.settings().3),
    {
        FileWriterBuilder { filename: Some(filename), ..self }
    }

    /// Set the format of the output file.
    pub fn format(self, format: OutputFormat) -> (r: Self)
        ensures
            r.settings() == (self.settings().0, format, self.settings().2, self.settings().3),
    {
        FileWriterBuilder { format, ..self }
    }

    /// Set the compression of the output file.
    pub fn compression(self, compression: Option<Compression>) -> (r: Self)
        ensures
            r.settings() == (self.settings().0, self.settings().1, compression, self.settings().3),
    {
        FileWriterBuilder { compression, ..self }
    }

    /// Set whether the events of each cell are written to a file of the cell.
    pub fn dump_cells(self, dump_cells: bool) -> (r: Self)
        ensures
            r.settings() == (self.settings().0, self.settings().1, self.settings().2, dump_cells),
    {
        FileWriterBuilder { dump_cells, ..self }
    }

    /// The writer with these settings, if the name of the output file was set.
    pub fn build(self) -> (r: Option<FileWriter>)
        ensures
            r.is_some() == self.settings().0.is_some(),
            r matches Some(w) ==> Some(w.settings().0) == self.settings().0 && w.settings().1 == self.settings().1
                && w.settings().2 == self.settings().2 && w.settings().3 == self.settings().3,
    {
        match self.filename {
            None => None,
            Some(filename) => Some(
                FileWriter {
                    filename,
                    format: self.format,
                    compression: self.compression,
                    dump_cells: self.dump_cells,
                },
            ),
        }
    }
}

impl FileWriter {
    /// The settings as a tuple: file name, format, compression, and whether
    /// the events of each cell are written to a file of the cell.
    pub closed spec fn settings(&self) -> (String, OutputFormat, Option<Compression>, bool) {
        (self.filename, self.format, self.compression, self.dump_cells)
    }

    /// Settings without a file name, with the format HepMC 2, without
    /// compression and without files for cells.
    pub fn builder() -> (r: FileWriterBuilder)
        ensures
            r.settings() == (None::<String>, OutputFormat::HepMC2, None::<Compression>, false),
    {
        FileWriterBuilder { filename: None, format: OutputFormat::HepMC2, compression: None, dump_cells: false }
    }

    /// The name of the output file.
    pub fn filename(&self) -> (r: &String)
        ensures
            *r == self.settings().0,
    {
        &self.filename
    }

    /// The format of the output file.
    pub fn format(&self) -> (r: OutputFormat)
        ensures
            r == self.settings().1,
    {
        self.format
    }

    /// The compression of the output file.
    pub fn compression(&self) -> (r: Option<Compression>)
        ensures
            r == self.settings().2,
    {
        self.compression
    }

    /// The names of the files for the cells number `0` to `ncells - 1`, or no
    /// names if cells get no files.
    pub fn cell_file_names(&self, ncells: usize) -> (r: Vec<String>)
        ensures
            r.len() == if self.settings().3 {
                ncells
            } else {
                0
            },
            forall|c: int| 0 <= c < r.len() ==> (#[trigger] r[c])@ == spec_cell_file_name(c as usize, self.settings().1),
    {
        let mut names: Vec<String> = Vec::new();
        if self.dump_cells {
            let mut c: usize = 0;
            while c < ncells
                invariant
                    c <= ncells,
                    names.len() == c,
                    forall|k: int| 0 <= k < c ==> (#[trigger] names[k])@ == spec_cell_file_name(k as usize, self.format),
                decreases ncells - c,
            {
                names.push(cell_file_name(c, self.format));
                c += 1;
            }
        }
        names
    }
}

} // verus!
