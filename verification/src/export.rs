use std::sync::Arc;
use vstd::prelude::*;

verus! {

/// An exporter that runs each of a list of exporters in turn.
pub struct GroupExporter<E> {
    pub exporters: Vec<E>,
}

impl<E> GroupExporter<E> {
    /// A group of the given exporters, in order.
    pub fn new(exporters: Vec<E>) -> (r: GroupExporter<E>)
        ensures
            r.exporters@ == exporters@,
    {
        GroupExporter { exporters }
    }
}

/// A compiler wrapped with the exporter that receives each compiled document.
pub struct CompileExporter<C, E> {
    pub compiler: C,
    pub exporter: Arc<GroupExporter<E>>,
}

impl<C, E> CompileExporter<C, E> {
    /// Wraps `compiler` with an exporter that does nothing (an empty group).
    pub fn new(compiler: C) -> (r: CompileExporter<C, E>)
        ensures
            r.compiler == compiler,
            r.exporter.exporters@ == Seq::<E>::empty(),
    {
        CompileExporter { compiler, exporter: Arc::new(GroupExporter::new(Vec::new())) }
    }

    /// Wrap driver with a given exporter.
    pub fn with_exporter(self, exporter: E) -> (r: CompileExporter<C, E>)
        ensures
            r.compiler == self.compiler,
            r.exporter.exporters@ == seq![exporter],
    {
        let mut s = self;
        s.set_exporter(exporter);
        s
    }

    /// set an exporter.
    pub fn set_exporter(&mut self, exporter: E)
        ensures
            final(self).compiler == old(self).compiler,
            final(self).exporter.exporters@ == seq![exporter],
    {
        let mut v: Vec<E> = Vec::new();
        v.push(exporter);
        self.exporter = Arc::new(GroupExporter::new(v));
    }
}

} // verus!
