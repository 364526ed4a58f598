//! Commands for the backend that are collected while packing and replayed as one batch.

use vstd::prelude::*;
use crate::render_resource::RenderResourceId;

verus! {

/// A deferred backend operation.
#[derive(Clone, Copy, Debug, PartialEq, Eq)]
pub enum Command {
    CopyBufferToBuffer {
        source_buffer: RenderResourceId,
        source_offset: u64,
        destination_buffer: RenderResourceId,
        destination_offset: u64,
        size: u64,
    },
    FreeBuffer(RenderResourceId),
}

/// An ordered list of deferred commands.
#[derive(Debug)]
pub struct CommandQueue {
    pub queue: Vec<Command>,
}

impl View for CommandQueue {
    type V = Seq<Command>;

    open spec fn view(&self) -> Seq<Command> {
        self.queue@
    }
}

impl CommandQueue {
    /// An empty queue.
    pub fn new() -> (queue: Self)
        ensures
            queue@ == Seq::<Command>::empty(),
    {
        CommandQueue { queue: Vec::new() }
    }

    /// Appends a copy of `size` bytes between two buffers.
    pub fn copy_buffer_to_buffer(
        &mut self,
        source_buffer: RenderResourceId,
        source_offset: u64,
        destination_buffer: RenderResourceId,
        destination_offset: u64,
        size: u64,
    )
        ensures
            final(self)@ == old(self)@.push(
                Command::CopyBufferToBuffer {
                    source_buffer,
                    source_offset,
                    destination_buffer,
                    destination_offset,
                    size,
                },
            ),
    {
        self.queue.push(
            Command::CopyBufferToBuffer {
                source_buffer,
                source_offset,
                destination_buffer,
                destination_offset,
                size,
            },
        );
    }

    /// Appends the release of `buffer`.
    pub fn free_buffer(&mut self, buffer: RenderResourceId)
        ensures
            final(self)@ == old(self)@.push(Command::FreeBuffer(buffer)),
    {
        self.queue.push(Command::FreeBuffer(buffer));
    }

    /// Hands out every queued command, in the order of queuing, and leaves the queue empty.
    pub fn drain(&mut self) -> (commands: Vec<Command>)
        ensures
            commands@ == old(self)@,
            final(self)@ == Seq::<Command>::empty(),
    {
        let mut commands: Vec<Command> = Vec::new();
        std::mem::swap(&mut self.queue, &mut commands);
        commands
    }
}

impl Default for CommandQueue {
    /// An empty queue.
    fn default() -> (queue: Self)
        ensures
            queue@ == Seq::<Command>::empty(),
    {
        CommandQueue::new()
    }
}

} // verus!
