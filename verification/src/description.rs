//! The description builder: attachments, passes, and the wiring between them.
//!
//! A description is a value: attachments and passes live in two vectors and
//! refer to one another by index, so the cyclic network of back-references
//! (a pass lists the attachments it touches, an attachment lists the passes
//! that read and write it) needs no shared ownership. Wiring operations are
//! symmetric: every operation updates the pass's own list, the attachment's
//! reader or writer list, and the attachment's usage-intent bitset.

use vstd::prelude::*;
use vstd::string::StringExecFns;

use crate::formats::Format;
use crate::formats::ImageUsage;

verus! {

/// The reserved name of the backbuffer attachment; user code must not
/// declare an attachment of this name.
pub const BACKBUFFER_NAME: &'static str = "BACKBUFFER";

/// A named GPU image participating in the graph.
pub struct AttachmentDesc {
    /// Stable name, unique across the graph.
    name: String,
    /// Pixel format, from the closed enumeration.
    format: Format,
    /// Sample count.
    samples: usize,
    /// Usage intents accumulated while passes were wired to this attachment.
    usage: ImageUsage,
    /// The passes (by index) that read this attachment, in wiring order.
    readers: Vec<usize>,
    /// The passes (by index) that write this attachment, in wiring order.
    writers: Vec<usize>,
}

/// A single rendering step producing and/or consuming attachments. All
/// attachment references are indices into the builder's attachment vector.
pub struct PassDesc {
    /// Stable name; `build` rejects a description in which two passes share one.
    name: String,
    /// Attachments read as input attachments, in wiring order.
    color_inputs: Vec<usize>,
    /// Attachments written as colour outputs, in wiring order.
    color_outputs: Vec<usize>,
    /// The depth/stencil attachment read, if any.
    depth_input: Option<usize>,
    /// The depth/stencil attachment written, if any.
    depth_output: Option<usize>,
}

/// Mathematical image of an [`AttachmentDesc`].
#[verifier::ext_equal]
pub struct AttachmentView {
    pub name: Seq<char>,
    pub format: Format,
    pub samples: usize,
    pub usage: ImageUsage,
    pub readers: Seq<usize>,
    pub writers: Seq<usize>,
}

/// Mathematical image of a [`PassDesc`].
#[verifier::ext_equal]
pub struct PassView {
    pub name: Seq<char>,
    pub color_inputs: Seq<usize>,
    pub color_outputs: Seq<usize>,
    pub depth_input: Option<usize>,
    pub depth_output: Option<usize>,
}

/// Mathematical image of a [`RendererBuilder`].
#[verifier::ext_equal]
pub struct BuilderView {
    pub attachments: Seq<AttachmentView>,
    pub passes: Seq<PassView>,
}

impl View for AttachmentDesc {
    type V = AttachmentView;

    closed spec fn view(&self) -> AttachmentView {
        AttachmentView {
            name: self.name@,
            format: self.format,
            samples: self.samples,
            usage: self.usage,
            readers: self.readers@,
            writers: self.writers@,
        }
    }
}

impl View for PassDesc {
    type V = PassView;

    closed spec fn view(&self) -> PassView {
        PassView {
            name: self.name@,
            color_inputs: self.color_inputs@,
            color_outputs: self.color_outputs@,
            depth_input: self.depth_input,
            depth_output: self.depth_output,
        }
    }
}

impl View for RendererBuilder {
    type V = BuilderView;

    closed spec fn view(&self) -> BuilderView {
        BuilderView {
            attachments: self.attachments@.map_values(|a: AttachmentDesc| a@),
            passes: self.passes@.map_values(|p: PassDesc| p@),
        }
    }
}

impl PassView {
    /// Every attachment index the pass mentions lies inside the builder's
    /// attachment vector.
    pub open spec fn wf(self, n_attachments: int) -> bool {
        &&& forall|i: int| 0 <= i < self.color_inputs.len() ==> self.color_inputs[i] < n_attachments
        &&& forall|i: int| 0 <= i < self.color_outputs.len() ==> self.color_outputs[i] < n_attachments
        &&& (self.depth_input is Some ==> self.depth_input->0 < n_attachments)
        &&& (self.depth_output is Some ==> self.depth_output->0 < n_attachments)
    }
}

impl AttachmentView {
    /// Every pass index in the reader and writer lists lies inside the
    /// builder's pass vector.
    pub open spec fn wf(self, n_passes: int) -> bool {
        &&& forall|i: int| 0 <= i < self.readers.len() ==> self.readers[i] < n_passes
        &&& forall|i: int| 0 <= i < self.writers.len() ==> self.writers[i] < n_passes
    }
}

impl BuilderView {
    /// Well-formedness of a description: all cross-references are in bounds
    /// and the reserved backbuffer attachment sits at index zero, exactly as
    /// `RendererBuilder::new` installed it.
    pub open spec fn wf(self) -> bool {
        &&& self.attachments.len() >= 1
        &&& self.attachments[0].name == BACKBUFFER_NAME@
        &&& self.attachments[0].format == Format::R8G8B8A8Unorm
        &&& self.attachments[0].samples == 1usize
        &&& forall|p: int| 0 <= p < self.passes.len() ==> (#[trigger] self.passes[p]).wf(
            self.attachments.len() as int,
        )
        &&& forall|a: int| 0 <= a < self.attachments.len() ==> (#[trigger] self.attachments[a]).wf(
            self.passes.len() as int,
        )
    }
}

/// The image of `add_color_output(pass, attachment)`: the attachment is
/// appended to the pass's colour outputs, the pass is appended to the
/// attachment's writers, and the attachment gains the colour-attachment
/// usage intent.
pub open spec fn spec_add_color_output(b: BuilderView, pass: int, attachment: int) -> BuilderView {
    BuilderView {
        passes: b.passes.update(
            pass,
            PassView { color_outputs: b.passes[pass].color_outputs.push(attachment as usize), ..b.passes[pass] },
        ),
        attachments: b.attachments.update(
            attachment,
            AttachmentView {
                writers: b.attachments[attachment].writers.push(pass as usize),
                usage: ImageUsage { color_attachment: true, ..b.attachments[attachment].usage },
                ..b.attachments[attachment]
            },
        ),
    }
}

/// The image of `set_depth_output(pass, attachment)`: the depth output slot
/// is replaced, the pass is appended to the attachment's writers, and the
/// attachment gains the depth-stencil usage intent.
pub open spec fn spec_set_depth_output(b: BuilderView, pass: int, attachment: int) -> BuilderView {
    BuilderView {
        passes: b.passes.update(
            pass,
            PassView { depth_output: Some(attachment as usize), ..b.passes[pass] },
        ),
        attachments: b.attachments.update(
            attachment,
            AttachmentView {
                writers: b.attachments[attachment].writers.push(pass as usize),
                usage: ImageUsage { depth_stencil_attachment: true, ..b.attachments[attachment].usage },
                ..b.attachments[attachment]
            },
        ),
    }
}

/// The image of `add_color_input(pass, attachment)`: the attachment is
/// appended to the pass's input attachments, the pass is appended to the
/// attachment's readers, and the attachment gains the input-attachment
/// usage intent.
pub open spec fn spec_add_color_input(b: BuilderView, pass: int, attachment: int) -> BuilderView {
    BuilderView {
        passes: b.passes.update(
            pass,
            PassView { color_inputs: b.passes[pass].color_inputs.push(attachment as usize), ..b.passes[pass] },
        ),
        attachments: b.attachments.update(
            attachment,
            AttachmentView {
                readers: b.attachments[attachment].readers.push(pass as usize),
                usage: ImageUsage { input_attachment: true, ..b.attachments[attachment].usage },
                ..b.attachments[attachment]
            },
        ),
    }
}

/// The image of `set_depth_input(pass, attachment)`: the depth input slot is
/// replaced, the pass is appended to the attachment's readers, and the
/// attachment gains the depth-stencil usage intent.
pub open spec fn spec_set_depth_input(b: BuilderView, pass: int, attachment: int) -> BuilderView {
    BuilderView {
        passes: b.passes.update(
            pass,
            PassView { depth_input: Some(attachment as usize), ..b.passes[pass] },
        ),
        attachments: b.attachments.update(
            attachment,
            AttachmentView {
                readers: b.attachments[attachment].readers.push(pass as usize),
                usage: ImageUsage { depth_stencil_attachment: true, ..b.attachments[attachment].usage },
                ..b.attachments[attachment]
            },
        ),
    }
}

/// Law: wiring never deduplicates. Calling `add_color_output` twice with the
/// same pass and attachment records the attachment twice in the pass's
/// colour outputs, in order, and registers the pass twice in the
/// attachment's writer list.
pub proof fn lemma_add_color_output_twice_records_twice(b: BuilderView, pass: int, attachment: int)
    requires
        0 <= pass < b.passes.len(),
        0 <= attachment < b.attachments.len(),
    ensures
        ({
            let b2 = spec_add_color_output(spec_add_color_output(b, pass, attachment), pass, attachment);
            &&& b2.passes[pass].color_outputs =~= b.passes[pass].color_outputs + seq![
                attachment as usize,
                attachment as usize,
            ]
            &&& b2.attachments[attachment].writers =~= b.attachments[attachment].writers + seq![
                pass as usize,
                pass as usize,
            ]
        }),
{
    let b1 = spec_add_color_output(b, pass, attachment);
    let b2 = spec_add_color_output(b1, pass, attachment);
    assert(b2.passes[pass].color_outputs =~= b.passes[pass].color_outputs + seq![
        attachment as usize,
        attachment as usize,
    ]);
    assert(b2.attachments[attachment].writers =~= b.attachments[attachment].writers + seq![
        pass as usize,
        pass as usize,
    ]);
}

/// A wiring operation touches one pass and one attachment, appends only
/// in-bounds indices to their lists, and leaves every identifying field
/// alone; that keeps a well-formed description well-formed.
proof fn lemma_wiring_preserves_wf(b0: BuilderView, b1: BuilderView, pass: int, attachment: int)
    requires
        b0.wf(),
        0 <= pass < b0.passes.len(),
        0 <= attachment < b0.attachments.len(),
        b1.passes.len() == b0.passes.len(),
        b1.attachments.len() == b0.attachments.len(),
        forall|p: int| 0 <= p < b0.passes.len() && p != pass ==> b1.passes[p] == b0.passes[p],
        forall|a: int|
            0 <= a < b0.attachments.len() && a != attachment ==> b1.attachments[a]
                == b0.attachments[a],
        b1.passes[pass].color_inputs == b0.passes[pass].color_inputs || b1.passes[pass].color_inputs
            == b0.passes[pass].color_inputs.push(attachment as usize),
        b1.passes[pass].color_outputs == b0.passes[pass].color_outputs
            || b1.passes[pass].color_outputs == b0.passes[pass].color_outputs.push(
            attachment as usize,
        ),
        b1.passes[pass].depth_input == b0.passes[pass].depth_input || b1.passes[pass].depth_input
            == Some(attachment as usize),
        b1.passes[pass].depth_output == b0.passes[pass].depth_output || b1.passes[pass].depth_output
            == Some(attachment as usize),
        b1.attachments[attachment].readers == b0.attachments[attachment].readers
            || b1.attachments[attachment].readers == b0.attachments[attachment].readers.push(
            pass as usize,
        ),
        b1.attachments[attachment].writers == b0.attachments[attachment].writers
            || b1.attachments[attachment].writers == b0.attachments[attachment].writers.push(
            pass as usize,
        ),
        b1.attachments[attachment].name == b0.attachments[attachment].name,
        b1.attachments[attachment].format == b0.attachments[attachment].format,
        b1.attachments[attachment].samples == b0.attachments[attachment].samples,
    ensures
        b1.wf(),
{
    assert forall|p: int| 0 <= p < b1.passes.len() implies (#[trigger] b1.passes[p]).wf(
        b1.attachments.len() as int,
    ) by {
        assert(b0.passes[p].wf(b0.attachments.len() as int));
    }
    assert forall|a: int| 0 <= a < b1.attachments.len() implies (#[trigger] b1.attachments[a]).wf(
        b1.passes.len() as int,
    ) by {
        assert(b0.attachments[a].wf(b0.passes.len() as int));
    }
}

/// Accumulates a render-graph description: the attachments, the passes, and
/// the wiring between them. Consumed by `build`, which returns the frozen
/// plan.
pub struct RendererBuilder {
    attachments: Vec<AttachmentDesc>,
    passes: Vec<PassDesc>,
}

impl RendererBuilder {
    /// A fresh builder holding only the reserved backbuffer attachment.
    pub fn new() -> (r: RendererBuilder)
        ensures
            r@.wf(),
            r@.passes =~= Seq::<PassView>::empty(),
            r@.attachments.len() == 1,
            r@.attachments[0] == (AttachmentView {
                name: BACKBUFFER_NAME@,
                format: Format::R8G8B8A8Unorm,
                samples: 1usize,
                usage: ImageUsage {
                    color_attachment: false,
                    depth_stencil_attachment: false,
                    input_attachment: false,
                },
                readers: Seq::<usize>::empty(),
                writers: Seq::<usize>::empty(),
            }),
    {
        let backbuffer = AttachmentDesc {
            name: String::from_str(BACKBUFFER_NAME),
            format: Format::R8G8B8A8Unorm,
            samples: 1,
            usage: ImageUsage::none(),
            readers: Vec::new(),
            writers: Vec::new(),
        };
        let mut attachments: Vec<AttachmentDesc> = Vec::new();
        attachments.push(backbuffer);
        let r = RendererBuilder { attachments, passes: Vec::new() };
        proof {
            assert(r@.attachments =~= seq![r.attachments@[0]@]);
        }
        r
    }

    /// Declares an attachment and returns its handle. Handles are stable for
    /// the builder's lifetime. The new attachment has no readers, writers or
    /// usage intents yet.
    pub fn add_attachment(&mut self, name: &str, format: Format, samples: usize) -> (id: usize)
        requires
            old(self)@.wf(),
        ensures
            final(self)@.wf(),
            id == old(self)@.attachments.len(),
            final(self)@.passes == old(self)@.passes,
            final(self)@.attachments =~= old(self)@.attachments.push(
                AttachmentView {
                    name: name@,
                    format,
                    samples,
                    usage: ImageUsage {
                        color_attachment: false,
                        depth_stencil_attachment: false,
                        input_attachment: false,
                    },
                    readers: Seq::<usize>::empty(),
                    writers: Seq::<usize>::empty(),
                },
            ),
    {
        let id = self.attachments.len();
        let attachment = AttachmentDesc {
            name: String::from_str(name),
            format,
            samples,
            usage: ImageUsage::none(),
            readers: Vec::new(),
            writers: Vec::new(),
        };
        self.attachments.push(attachment);
        proof {
            assert(self@.attachments =~= old(self)@.attachments.push(self.attachments@[id as int]@));
            assert(self@.passes =~= old(self)@.passes);
            assert forall|p: int| 0 <= p < self@.passes.len() implies (#[trigger] self@.passes[p]).wf(
                self@.attachments.len() as int,
            ) by {
                assert(old(self)@.passes[p].wf(old(self)@.attachments.len() as int));
            }
        }
        id
    }

    /// Declares a depth attachment: shorthand for `add_attachment` with the
    /// default depth format `D24Unorm_S8Uint`.
    pub fn add_depth_attachment(&mut self, name: &str, samples: usize) -> (id: usize)
        requires
            old(self)@.wf(),
        ensures
            final(self)@.wf(),
            id == old(self)@.attachments.len(),
            final(self)@.passes == old(self)@.passes,
            final(self)@.attachments =~= old(self)@.attachments.push(
                AttachmentView {
                    name: name@,
                    format: Format::D24Unorm_S8Uint,
                    samples,
                    usage: ImageUsage {
                        color_attachment: false,
                        depth_stencil_attachment: false,
                        input_attachment: false,
                    },
                    readers: Seq::<usize>::empty(),
                    writers: Seq::<usize>::empty(),
                },
            ),
    {
        self.add_attachment(name, Format::D24Unorm_S8Uint, samples)
    }

    /// Declares a pass and returns its handle. The pass starts with no
    /// inputs and no outputs.
    pub fn add_pass(&mut self, name: &str) -> (id: usize)
        requires
            old(self)@.wf(),
        ensures
            final(self)@.wf(),
            id == old(self)@.passes.len(),
            final(self)@.attachments == old(self)@.attachments,
            final(self)@.passes =~= old(self)@.passes.push(
                PassView {
                    name: name@,
                    color_inputs: Seq::<usize>::empty(),
                    color_outputs: Seq::<usize>::empty(),
                    depth_input: None,
                    depth_output: None,
                },
            ),
    {
        let id = self.passes.len();
        let pass = PassDesc {
            name: String::from_str(name),
            color_inputs: Vec::new(),
            color_outputs: Vec::new(),
            depth_input: None,
            depth_output: None,
        };
        self.passes.push(pass);
        proof {
            assert(self@.passes =~= old(self)@.passes.push(self.passes@[id as int]@));
            assert(self@.attachments =~= old(self)@.attachments);
            assert forall|a: int|
                0 <= a < self@.attachments.len() implies (#[trigger] self@.attachments[a]).wf(
                self@.passes.len() as int,
            ) by {
                assert(old(self)@.attachments[a].wf(old(self)@.passes.len() as int));
            }
        }
        id
    }

    /// Appends `attachment` to `pass`'s colour outputs, registers `pass` as
    /// a writer of the attachment, and sets its colour-attachment usage
    /// intent. Order-preserving; wiring the same attachment twice records it
    /// twice.
    pub fn add_color_output(&mut self, pass: usize, attachment: usize)
        requires
            old(self)@.wf(),
            pass < old(self)@.passes.len(),
            attachment < old(self)@.attachments.len(),
        ensures
            final(self)@.wf(),
            final(self)@ == spec_add_color_output(old(self)@, pass as int, attachment as int),
    {
        self.passes[pass].color_outputs.push(attachment);
        self.attachments[attachment].writers.push(pass);
        self.attachments[attachment].usage.color_attachment = true;
        proof {
            let target = spec_add_color_output(old(self)@, pass as int, attachment as int);
            assert(self@.passes =~= target.passes);
            assert(self@.attachments =~= target.attachments);
            lemma_wiring_preserves_wf(old(self)@, self@, pass as int, attachment as int);
        }
    }

    /// Replaces `pass`'s depth output slot with `attachment`, registers
    /// `pass` as a writer of the attachment, and sets its depth-stencil
    /// usage intent.
    pub fn set_depth_output(&mut self, pass: usize, attachment: usize)
        requires
            old(self)@.wf(),
            pass < old(self)@.passes.len(),
            attachment < old(self)@.attachments.len(),
        ensures
            final(self)@.wf(),
            final(self)@ == spec_set_depth_output(old(self)@, pass as int, attachment as int),
    {
        self.passes[pass].depth_output = Some(attachment);
        self.attachments[attachment].writers.push(pass);
        self.attachments[attachment].usage.depth_stencil_attachment = true;
        proof {
            let target = spec_set_depth_output(old(self)@, pass as int, attachment as int);
            assert(self@.passes =~= target.passes);
            assert(self@.attachments =~= target.attachments);
            lemma_wiring_preserves_wf(old(self)@, self@, pass as int, attachment as int);
        }
    }

    /// Appends `attachment` to `pass`'s input attachments, registers `pass`
    /// as a reader of the attachment, and sets its input-attachment usage
    /// intent. Order-preserving; wiring the same attachment twice records it
    /// twice.
    pub fn add_color_input(&mut self, pass: usize, attachment: usize)
        requires
            old(self)@.wf(),
            pass < old(self)@.passes.len(),
            attachment < old(self)@.attachments.len(),
        ensures
            final(self)@.wf(),
            final(self)@ == spec_add_color_input(old(self)@, pass as int, attachment as int),
    {
        self.passes[pass].color_inputs.push(attachment);
        self.attachments[attachment].readers.push(pass);
        self.attachments[attachment].usage.input_attachment = true;
        proof {
            let target = spec_add_color_input(old(self)@, pass as int, attachment as int);
            assert(self@.passes =~= target.passes);
            assert(self@.attachments =~= target.attachments);
            lemma_wiring_preserves_wf(old(self)@, self@, pass as int, attachment as int);
        }
    }

    /// Replaces `pass`'s depth input slot with `attachment`, registers
    /// `pass` as a reader of the attachment, and sets its depth-stencil
    /// usage intent.
    pub fn set_depth_input(&mut self, pass: usize, attachment: usize)
        requires
            old(self)@.wf(),
            pass < old(self)@.passes.len(),
            attachment < old(self)@.attachments.len(),
        ensures
            final(self)@.wf(),
            final(self)@ == spec_set_depth_input(old(self)@, pass as int, attachment as int),
    {
        self.passes[pass].depth_input = Some(attachment);
        self.attachments[attachment].readers.push(pass);
        self.attachments[attachment].usage.depth_stencil_attachment = true;
        proof {
            let target = spec_set_depth_input(old(self)@, pass as int, attachment as int);
            assert(self@.passes =~= target.passes);
            assert(self@.attachments =~= target.attachments);
            lemma_wiring_preserves_wf(old(self)@, self@, pass as int, attachment as int);
        }
    }

    /// The handle of the reserved backbuffer attachment, the terminal sink
    /// of the graph.
    pub fn get_backbuffer_attachment(&self) -> (id: usize)
        ensures
            id == 0usize,
    {
        0
    }

    /// The validator: rejects a description whose depth slots hold non-depth
    /// formats, then one in which two passes share a name. Returns the first
    /// failure; keeps no partial state.
    pub fn validate_passes(&self) -> (r: Result<(), crate::BuildError>)
        requires
            self@.wf(),
        ensures
            r is Ok <==> (spec_depth_slots_valid(self@) && spec_pass_names_distinct(self@)),
            r == Err::<(), crate::BuildError>(crate::BuildError::NonDepthFormatInDepthSlot)
                <==> !spec_depth_slots_valid(self@),
            r == Err::<(), crate::BuildError>(crate::BuildError::PassNameCollision)
                <==> (spec_depth_slots_valid(self@) && !spec_pass_names_distinct(self@)),
    {
        proof {
            assert(forall|i: int|
                0 <= i < self.passes@.len() ==> self@.passes[i] == #[trigger] self.passes@[i]@);
            assert(forall|i: int|
                0 <= i < self.attachments@.len() ==> self@.attachments[i]
                    == #[trigger] self.attachments@[i]@);
        }
        let n = self.passes.len();
        for p in 0..n
            invariant
                self@.wf(),
                n == self@.passes.len(),
                forall|i: int|
                    0 <= i < self.passes@.len() ==> self@.passes[i] == #[trigger] self.passes@[i]@,
                forall|i: int|
                    0 <= i < self.attachments@.len() ==> self@.attachments[i]
                        == #[trigger] self.attachments@[i]@,
                forall|q: int| 0 <= q < p ==> spec_pass_depth_slots_valid(self@, q),
        {
            let pass = &self.passes[p];
            proof {
                assert(self@.passes[p as int].wf(self@.attachments.len() as int));
            }
            if let Some(a) = pass.depth_input {
                proof {
                    assert(a < self.attachments@.len());
                }
                if !crate::formats::is_depth_format(self.attachments[a].format) {
                    proof {
                        assert(!spec_pass_depth_slots_valid(self@, p as int));
                    }
                    return Err(crate::BuildError::NonDepthFormatInDepthSlot);
                }
            }
            if let Some(a) = pass.depth_output {
                proof {
                    assert(a < self.attachments@.len());
                }
                if !crate::formats::is_depth_format(self.attachments[a].format) {
                    proof {
                        assert(!spec_pass_depth_slots_valid(self@, p as int));
                    }
                    return Err(crate::BuildError::NonDepthFormatInDepthSlot);
                }
            }
        }
        let mut p: usize = 1;
        while p < n
            invariant
                self@.wf(),
                n == self@.passes.len(),
                forall|i: int|
                    0 <= i < self.passes@.len() ==> self@.passes[i] == #[trigger] self.passes@[i]@,
                spec_depth_slots_valid(self@),
                forall|q1: int, q2: int|
                    0 <= q1 < q2 < p ==> self@.passes[q1].name != self@.passes[q2].name,
            decreases n - p,
        {
            let mut q: usize = 0;
            while q < p
                invariant
                    self@.wf(),
                    n == self@.passes.len(),
                    forall|i: int|
                        0 <= i < self.passes@.len() ==> self@.passes[i] == #[trigger] self.passes@[
                            i
                        ]@,
                    spec_depth_slots_valid(self@),
                    q <= p < n,
                    forall|q1: int, q2: int|
                        0 <= q1 < q2 < p ==> self@.passes[q1].name != self@.passes[q2].name,
                    forall|q1: int|
                        0 <= q1 < q ==> self@.passes[q1].name != self@.passes[p as int].name,
                decreases p - q,
            {
                if self.passes[q].name == self.passes[p].name {
                    proof {
                        assert(self@.passes[q as int].name == self@.passes[p as int].name);
                        assert(!spec_pass_names_distinct(self@));
                    }
                    return Err(crate::BuildError::PassNameCollision);
                }
                q += 1;
            }
            p += 1;
        }
        Ok(())
    }
}

impl RendererBuilder {
    /// Number of declared passes.
    pub fn num_passes(&self) -> (n: usize)
        ensures
            n == self@.passes.len(),
    {
        self.passes.len()
    }

    /// Number of declared attachments, the backbuffer included.
    pub fn num_attachments(&self) -> (n: usize)
        ensures
            n == self@.attachments.len(),
    {
        self.attachments.len()
    }

    /// The input attachments of a pass, in wiring order.
    pub fn pass_color_inputs(&self, pass: usize) -> (r: &Vec<usize>)
        requires
            pass < self@.passes.len(),
        ensures
            r@ == self@.passes[pass as int].color_inputs,
    {
        proof {
            assert(self@.passes[pass as int] == self.passes@[pass as int]@);
        }
        &self.passes[pass].color_inputs
    }

    /// The colour outputs of a pass, in wiring order.
    pub fn pass_color_outputs(&self, pass: usize) -> (r: &Vec<usize>)
        requires
            pass < self@.passes.len(),
        ensures
            r@ == self@.passes[pass as int].color_outputs,
    {
        proof {
            assert(self@.passes[pass as int] == self.passes@[pass as int]@);
        }
        &self.passes[pass].color_outputs
    }

    /// The depth attachment a pass reads, if any.
    pub fn pass_depth_input(&self, pass: usize) -> (r: Option<usize>)
        requires
            pass < self@.passes.len(),
        ensures
            r == self@.passes[pass as int].depth_input,
    {
        proof {
            assert(self@.passes[pass as int] == self.passes@[pass as int]@);
        }
        self.passes[pass].depth_input
    }

    /// The depth attachment a pass writes, if any.
    pub fn pass_depth_output(&self, pass: usize) -> (r: Option<usize>)
        requires
            pass < self@.passes.len(),
        ensures
            r == self@.passes[pass as int].depth_output,
    {
        proof {
            assert(self@.passes[pass as int] == self.passes@[pass as int]@);
        }
        self.passes[pass].depth_output
    }

    /// The name of a pass.
    pub fn pass_name(&self, pass: usize) -> (r: &String)
        requires
            pass < self@.passes.len(),
        ensures
            r@ == self@.passes[pass as int].name,
    {
        proof {
            assert(self@.passes[pass as int] == self.passes@[pass as int]@);
        }
        &self.passes[pass].name
    }

    /// The name of an attachment.
    pub fn attachment_name(&self, attachment: usize) -> (r: &String)
        requires
            attachment < self@.attachments.len(),
        ensures
            r@ == self@.attachments[attachment as int].name,
    {
        proof {
            assert(self@.attachments[attachment as int] == self.attachments@[attachment as int]@);
        }
        &self.attachments[attachment].name
    }

    /// The format of an attachment.
    pub fn attachment_format(&self, attachment: usize) -> (r: Format)
        requires
            attachment < self@.attachments.len(),
        ensures
            r == self@.attachments[attachment as int].format,
    {
        proof {
            assert(self@.attachments[attachment as int] == self.attachments@[attachment as int]@);
        }
        self.attachments[attachment].format
    }

    /// The sample count of an attachment.
    pub fn attachment_samples(&self, attachment: usize) -> (r: usize)
        requires
            attachment < self@.attachments.len(),
        ensures
            r == self@.attachments[attachment as int].samples,
    {
        proof {
            assert(self@.attachments[attachment as int] == self.attachments@[attachment as int]@);
        }
        self.attachments[attachment].samples
    }

    /// The usage intents accumulated on an attachment.
    pub fn attachment_usage(&self, attachment: usize) -> (r: ImageUsage)
        requires
            attachment < self@.attachments.len(),
        ensures
            r == self@.attachments[attachment as int].usage,
    {
        proof {
            assert(self@.attachments[attachment as int] == self.attachments@[attachment as int]@);
        }
        self.attachments[attachment].usage
    }

    /// The passes reading an attachment, in wiring order.
    pub fn attachment_readers(&self, attachment: usize) -> (r: &Vec<usize>)
        requires
            attachment < self@.attachments.len(),
        ensures
            r@ == self@.attachments[attachment as int].readers,
    {
        proof {
            assert(self@.attachments[attachment as int] == self.attachments@[attachment as int]@);
        }
        &self.attachments[attachment].readers
    }

    /// The passes writing an attachment, in wiring order.
    pub fn attachment_writers(&self, attachment: usize) -> (r: &Vec<usize>)
        requires
            attachment < self@.attachments.len(),
        ensures
            r@ == self@.attachments[attachment as int].writers,
    {
        proof {
            assert(self@.attachments[attachment as int] == self.attachments@[attachment as int]@);
        }
        &self.attachments[attachment].writers
    }
}

/// Both depth slots of pass `p`, where present, reference attachments whose
/// format is in the depth set.
pub open spec fn spec_pass_depth_slots_valid(b: BuilderView, p: int) -> bool {
    &&& (b.passes[p].depth_input is Some ==> crate::formats::spec_is_depth_format(
        b.attachments[b.passes[p].depth_input->0 as int].format,
    ))
    &&& (b.passes[p].depth_output is Some ==> crate::formats::spec_is_depth_format(
        b.attachments[b.passes[p].depth_output->0 as int].format,
    ))
}

/// Every depth slot of every pass references a depth-formatted attachment.
pub open spec fn spec_depth_slots_valid(b: BuilderView) -> bool {
    forall|p: int| 0 <= p < b.passes.len() ==> spec_pass_depth_slots_valid(b, p)
}

/// No two passes share a name.
pub open spec fn spec_pass_names_distinct(b: BuilderView) -> bool {
    forall|p1: int, p2: int|
        0 <= p1 < p2 < b.passes.len() ==> b.passes[p1].name != b.passes[p2].name
}

} // verus!
