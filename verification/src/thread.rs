//! The render worker: what it holds, what it does with each command, and what
//! it sends back.
//!
//! The worker takes its commands one at a time, in the order in which they were
//! sent. It keeps the scene and the settings that it was given last. A request for
//! a frame starts one render pass over them, unless no scene has come yet.

use crate::frame::Frame;
use crate::params::RenderParams;
use crate::pass::{FramePass, PassView, Progress};
use vstd::prelude::*;

verus! {

/// What the caller sends to the worker. The scene is carried along unread.
pub enum RenderThreadCommand<S, L> {
    UpdateScene(S),
    UpdateRenderParams(RenderParams<L>),
    RequestFrame,
}

/// What the worker sends back.
pub enum RenderThreadResponse {
    FrameRendered(Frame),
    ProgressUpdate(Progress),
}

/// The worker's state between two commands. With no scene it is idle; with one
/// it is ready to render.
pub struct RenderThread<S, L> {
    pub scene: Option<S>,
    pub params: RenderParams<L>,
}

/// The scene that the last `UpdateScene` among `commands` brought.
pub open spec fn latest_scene<S, L>(commands: Seq<RenderThreadCommand<S, L>>) -> Option<S>
    decreases commands.len(),
{
    if commands.len() == 0 {
        None
    } else {
        match commands.last() {
            RenderThreadCommand::UpdateScene(scene) => Some(scene),
            _ => latest_scene(commands.drop_last()),
        }
    }
}

/// The settings that the last `UpdateRenderParams` among `commands` brought.
pub open spec fn latest_params<S, L>(commands: Seq<RenderThreadCommand<S, L>>) -> Option<
    RenderParams<L>,
>
    decreases commands.len(),
{
    if commands.len() == 0 {
        None
    } else {
        match commands.last() {
            RenderThreadCommand::UpdateRenderParams(params) => Some(params),
            _ => latest_params(commands.drop_last()),
        }
    }
}

impl<S, L> RenderThread<S, L> {
    /// The worker has a scene to render.
    pub open spec fn ready(self) -> bool {
        self.scene is Some
    }

    /// The worker once it has taken `command`.
    pub open spec fn after(self, command: RenderThreadCommand<S, L>) -> Self {
        match command {
            RenderThreadCommand::UpdateScene(scene) => RenderThread { scene: Some(scene), ..self },
            RenderThreadCommand::UpdateRenderParams(params) => RenderThread { params, ..self },
            RenderThreadCommand::RequestFrame => self,
        }
    }

    /// Whether `command` makes the worker render a frame.
    pub open spec fn renders(self, command: RenderThreadCommand<S, L>) -> bool {
        command is RequestFrame && self.ready()
    }

    /// The pass that a request for a frame starts.
    pub open spec fn pass(self) -> PassView {
        PassView::start(
            self.params@.resolution.width as nat,
            self.params@.resolution.height as nat,
            self.params@.samples_per_pixel as nat,
        )
    }

    /// The worker once it has taken `commands`, in their order.
    pub open spec fn after_all(self, commands: Seq<RenderThreadCommand<S, L>>) -> Self
        decreases commands.len(),
    {
        if commands.len() == 0 {
            self
        } else {
            self.after_all(commands.drop_last()).after(commands.last())
        }
    }

    /// The number of frames that the worker renders while it takes `commands`.
    pub open spec fn frames(self, commands: Seq<RenderThreadCommand<S, L>>) -> nat
        decreases commands.len(),
    {
        if commands.len() == 0 {
            0
        } else {
            let earlier = self.frames(commands.drop_last());
            if self.after_all(commands.drop_last()).renders(commands.last()) {
                earlier + 1
            } else {
                earlier
            }
        }
    }

    /// Whatever the commands were, the worker holds the scene and the settings
    /// that came last, and its own where none came. So a frame is rendered from
    /// what had arrived when its request was taken, and what arrives later waits
    /// for the next request.
    pub proof fn lemma_latest_wins(self, commands: Seq<RenderThreadCommand<S, L>>)
        ensures
            self.after_all(commands).scene == match latest_scene(commands) {
                Some(scene) => Some(scene),
                None => self.scene,
            },
            self.after_all(commands).params == match latest_params(commands) {
                Some(params) => params,
                None => self.params,
            },
        decreases commands.len(),
    {
        if commands.len() > 0 {
            self.lemma_latest_wins(commands.drop_last());
        }
    }

    /// A worker that never got a scene renders nothing, however often it is asked.
    pub proof fn lemma_idle_renders_nothing(self, commands: Seq<RenderThreadCommand<S, L>>)
        requires
            !self.ready(),
            latest_scene(commands) is None,
        ensures
            self.frames(commands) == 0,
            !self.after_all(commands).ready(),
        decreases commands.len(),
    {
        if commands.len() > 0 {
            self.lemma_idle_renders_nothing(commands.drop_last());
            self.lemma_latest_wins(commands.drop_last());
        }
    }

    /// An idle worker with the given settings.
    pub fn new(params: RenderParams<L>) -> (worker: Self)
        ensures
            worker.scene is None,
            worker.params == params,
    {
        RenderThread { scene: None, params }
    }

    /// Starts the pass that renders the worker's scene with its settings; `None`
    /// while the worker has no scene.
    pub fn render(&self) -> (job: Option<FramePass>)
        ensures
            job is Some <==> self.ready(),
            job matches Some(pass) ==> pass@ == self.pass(),
    {
        if self.scene.is_some() {
            let (width, height) = self.params.frame_size();
            FramePass::begin(width, height, self.params.samples_per_pixel())
        } else {
            None
        }
    }

    /// Takes one command. A scene or settings replace what the worker held. A
    /// request for a frame changes nothing and, where the worker has a scene,
    /// starts the pass that renders it.
    pub fn handle(&mut self, command: RenderThreadCommand<S, L>) -> (job: Option<FramePass>)
        ensures
            *final(self) == old(self).after(command),
            job is Some <==> old(self).renders(command),
            job matches Some(pass) ==> pass@ == old(self).pass(),
    {
        match command {
            RenderThreadCommand::UpdateScene(scene) => {
                self.scene = Some(scene);
                None
            },
            RenderThreadCommand::UpdateRenderParams(params) => {
                self.params = params;
                None
            },
            RenderThreadCommand::RequestFrame => self.render(),
        }
    }
}

} // verus!
