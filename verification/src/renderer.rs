//! The caller's side of the renderer.
//!
//! The caller never waits. When no frame is on its way, a call hands out the
//! commands that ask for one. While a frame is on its way, a call takes in what the
//! worker has sent since the last one: the latest progress and, in the end, the
//! frame. At most one frame is on its way at any time.

use crate::frame::Frame;
use crate::params::RenderParams;
use crate::pass::Progress;
use crate::thread::{RenderThread, RenderThreadCommand, RenderThreadResponse};
use vstd::prelude::*;

verus! {

/// The worker is gone: nothing can be rendered any more.
#[derive(Copy, Clone, PartialEq, Eq, Debug, Structural)]
pub struct RendererUnavailable;

/// What the caller knows of the renderer.
pub struct Renderer {
    /// A frame was asked for and has not come yet.
    pub waiting_for_next_frame: bool,
    /// The progress that the worker reported last.
    pub progress: Progress,
    /// The worker can still be reached.
    pub available: bool,
}

/// The commands that ask for a frame of `scene` with `params`.
pub open spec fn frame_request<S, L>(params: RenderParams<L>, scene: S) -> Seq<
    RenderThreadCommand<S, L>,
> {
    seq![
        RenderThreadCommand::UpdateScene(scene),
        RenderThreadCommand::UpdateRenderParams(params),
        RenderThreadCommand::RequestFrame,
    ]
}

/// The progress that the last `ProgressUpdate` among `inbox` brought.
pub open spec fn latest_progress(inbox: Seq<RenderThreadResponse>) -> Option<Progress>
    decreases inbox.len(),
{
    if inbox.len() == 0 {
        None
    } else {
        match inbox.last() {
            RenderThreadResponse::ProgressUpdate(progress) => Some(progress),
            _ => latest_progress(inbox.drop_last()),
        }
    }
}

/// The frame that the last `FrameRendered` among `inbox` brought.
pub open spec fn latest_frame(inbox: Seq<RenderThreadResponse>) -> Option<Frame>
    decreases inbox.len(),
{
    if inbox.len() == 0 {
        None
    } else {
        match inbox.last() {
            RenderThreadResponse::FrameRendered(frame) => Some(frame),
            _ => latest_frame(inbox.drop_last()),
        }
    }
}

impl Renderer {
    /// A call would ask for a frame.
    pub open spec fn submits(self) -> bool {
        self.available && !self.waiting_for_next_frame
    }

    /// The commands that a call hands out.
    pub open spec fn outbox<S, L>(self, params: RenderParams<L>, scene: S) -> Seq<
        RenderThreadCommand<S, L>,
    > {
        if self.submits() {
            frame_request(params, scene)
        } else {
            Seq::empty()
        }
    }

    /// The renderer and the image once `response` is taken in.
    pub open spec fn absorbed(self, image: Frame, response: RenderThreadResponse) -> (
        Renderer,
        Frame,
    ) {
        match response {
            RenderThreadResponse::ProgressUpdate(progress) => (Renderer { progress, ..self }, image),
            RenderThreadResponse::FrameRendered(frame) => (
                Renderer { waiting_for_next_frame: false, ..self },
                frame,
            ),
        }
    }

    /// The renderer and the image once `inbox` is taken in, in its order.
    pub open spec fn drained(self, image: Frame, inbox: Seq<RenderThreadResponse>) -> (
        Renderer,
        Frame,
    )
        decreases inbox.len(),
    {
        if inbox.len() == 0 {
            (self, image)
        } else {
            let earlier = self.drained(image, inbox.drop_last());
            earlier.0.absorbed(earlier.1, inbox.last())
        }
    }

    /// The renderer and the image after a call that found `inbox` waiting.
    pub open spec fn rendered(self, image: Frame, inbox: Seq<RenderThreadResponse>) -> (
        Renderer,
        Frame,
    ) {
        if !self.available {
            (self, image)
        } else if !self.waiting_for_next_frame {
            (Renderer { waiting_for_next_frame: true, ..self }, image)
        } else {
            self.drained(image, inbox)
        }
    }

    /// Taking in responses shows the progress and the frame that came last, and
    /// keeps waiting exactly if no frame came.
    pub proof fn lemma_drained(self, image: Frame, inbox: Seq<RenderThreadResponse>)
        ensures
            self.drained(image, inbox).0.available == self.available,
            self.drained(image, inbox).0.progress == match latest_progress(inbox) {
                Some(progress) => progress,
                None => self.progress,
            },
            self.drained(image, inbox).1 == match latest_frame(inbox) {
                Some(frame) => frame,
                None => image,
            },
            self.drained(image, inbox).0.waiting_for_next_frame == (self.waiting_for_next_frame
                && latest_frame(inbox) is None),
        decreases inbox.len(),
    {
        if inbox.len() > 0 {
            self.lemma_drained(image, inbox.drop_last());
        }
    }

    /// Of two calls with no response in between, only the first asks for a frame:
    /// after it the renderer waits, and the second call changes nothing.
    pub proof fn lemma_one_frame_in_flight(self, image: Frame)
        requires
            self.submits(),
        ensures
            ({
                let first = self.rendered(image, Seq::empty());
                let second = first.0.rendered(first.1, Seq::empty());
                &&& first.0.waiting_for_next_frame
                &&& !first.0.submits()
                &&& second == first
            }),
    {
    }

    /// Two calls with no response in between make the worker render one frame,
    /// whatever it held before: the frame of the first call's scene with the first
    /// call's settings.
    pub proof fn lemma_two_calls_one_frame<S, L>(
        self,
        image: Frame,
        worker: RenderThread<S, L>,
        first_params: RenderParams<L>,
        first_scene: S,
        second_params: RenderParams<L>,
        second_scene: S,
    )
        requires
            self.submits(),
        ensures
            ({
                let first = self.outbox(first_params, first_scene);
                let waiting = self.rendered(image, Seq::empty()).0;
                let second = waiting.outbox(second_params, second_scene);
                &&& second.len() == 0
                &&& worker.frames(first + second) == 1
                &&& worker.after_all(first + second).scene == Some(first_scene)
                &&& worker.after_all(first + second).params == first_params
            }),
    {
        let sent = frame_request(first_params, first_scene);
        let two = sent.drop_last();
        let one = two.drop_last();
        assert(sent + Seq::<RenderThreadCommand<S, L>>::empty() =~= sent);
        assert(one.drop_last() =~= Seq::<RenderThreadCommand<S, L>>::empty());
        assert(worker.after_all(one.drop_last()) == worker);
        assert(worker.frames(one.drop_last()) == 0);
        assert(one.last() == RenderThreadCommand::<S, L>::UpdateScene(first_scene));
        assert(worker.after_all(one).scene == Some(first_scene));
        assert(worker.frames(one) == 0);
        assert(two.last() == RenderThreadCommand::<S, L>::UpdateRenderParams(first_params));
        assert(worker.after_all(two).scene == Some(first_scene));
        assert(worker.after_all(two).params == first_params);
        assert(worker.frames(two) == 0);
        assert(sent.last() == RenderThreadCommand::<S, L>::RequestFrame);
        assert(worker.after_all(sent) == worker.after_all(two));
        assert(worker.frames(sent) == 1);
    }

    /// A renderer that waits for nothing and has seen no progress.
    pub fn new() -> (renderer: Renderer)
        ensures
            renderer == (Renderer {
                waiting_for_next_frame: false,
                progress: Progress { row: 0, rows: 1 },
                available: true,
            }),
    {
        Renderer {
            waiting_for_next_frame: false,
            progress: Progress { row: 0, rows: 1 },
            available: true,
        }
    }

    /// Notes that the worker can no longer be reached. Every later call to
    /// `render` fails.
    pub fn worker_lost(&mut self)
        ensures
            *final(self) == (Renderer { available: false, ..*old(self) }),
    {
        self.available = false;
    }

    /// Takes in one response of the worker: progress replaces the progress shown,
    /// and a frame replaces the image and ends the wait.
    pub fn absorb(&mut self, image: &mut Frame, response: RenderThreadResponse)
        ensures
            (*final(self), *final(image)) == old(self).absorbed(*old(image), response),
    {
        match response {
            RenderThreadResponse::ProgressUpdate(progress) => {
                self.progress = progress;
            },
            RenderThreadResponse::FrameRendered(frame) => {
                *image = frame;
                self.waiting_for_next_frame = false;
            },
        }
    }

    /// One call of the caller's redraw. `inbox` holds what the worker has sent and
    /// was not taken in yet, oldest first.
    ///
    /// Fails if the worker is gone. Else, with no frame on its way, returns the
    /// commands that ask for one and starts to wait; `inbox` is left aside. With a
    /// frame on its way, returns no command and takes in `inbox`.
    pub fn render<S, L>(
        &mut self,
        image: &mut Frame,
        params: RenderParams<L>,
        scene: S,
        inbox: Vec<RenderThreadResponse>,
    ) -> (outbox: Result<Vec<RenderThreadCommand<S, L>>, RendererUnavailable>)
        ensures
            outbox is Err <==> !old(self).available,
            outbox matches Ok(commands) ==> commands@ == old(self).outbox(params, scene),
            (*final(self), *final(image)) == old(self).rendered(*old(image), inbox@),
    {
        if !self.available {
            return Err(RendererUnavailable);
        }
        let mut commands: Vec<RenderThreadCommand<S, L>> = Vec::new();
        if !self.waiting_for_next_frame {
            commands.push(RenderThreadCommand::UpdateScene(scene));
            commands.push(RenderThreadCommand::UpdateRenderParams(params));
            commands.push(RenderThreadCommand::RequestFrame);
            self.waiting_for_next_frame = true;
            proof {
                assert(commands@ =~= frame_request(params, scene));
            }
        } else {
            let ghost all = inbox@;
            let ghost start = *self;
            let ghost first_image = *image;
            for response in it: inbox.into_iter()
                invariant
                    it.seq() == all,
                    (*self, *image) == start.drained(first_image, all.take(it.index() as int)),
            {
                proof {
                    let next = it.index() as int;
                    assert(all.take(next + 1).drop_last() =~= all.take(next));
                    assert(all.take(next + 1).last() == all[next]);
                }
                self.absorb(image, response);
            }
            proof {
                assert(all.take(all.len() as int) =~= all);
            }
        }
        Ok(commands)
    }
}

} // verus!
