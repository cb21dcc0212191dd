use vstd::prelude::*;

verus! {

/// The WAL writer's batch buffer. Frames accumulate here; once a write
/// would push the batch past its capacity, the accumulated bytes are handed
/// back to be written to the file first. The caller owns the file handle
/// and performs the actual writes with what `write` and `flush` return.
pub struct WALio {
    pub batch: Vec<u8>,
    pub capacity: usize,
}

impl WALio {
    pub fn new(batch_capacity: usize) -> (r: Self)
        ensures
            r.batch@.len() == 0,
            r.capacity == batch_capacity,
    {
        WALio { batch: Vec::new(), capacity: batch_capacity }
    }

    /// Appends `data` to the batch. If that would exceed the capacity, the
    /// old batch is returned first, to be written to the file, and `data`
    /// becomes the new batch.
    pub fn write(&mut self, data: Vec<u8>) -> (flushed: Option<Vec<u8>>)
        ensures
            final(self).capacity == old(self).capacity,
            if old(self).batch@.len() + data@.len() > old(self).capacity {
                (flushed matches Some(f) && f@ == old(self).batch@) && final(self).batch@
                    == data@
            } else {
                flushed is None && final(self).batch@ == old(self).batch@ + data@
            },
    {
        let over = if data.len() > self.capacity {
            true
        } else {
            self.batch.len() > self.capacity - data.len()
        };
        if over {
            let out = self.flush();
            self.batch = data;
            Some(out)
        } else {
            let mut data = data;
            self.batch.append(&mut data);
            None
        }
    }

    /// Empties the batch and returns its bytes, to be written to the file.
    pub fn flush(&mut self) -> (out: Vec<u8>)
        ensures
            final(self).capacity == old(self).capacity,
            out@ == old(self).batch@,
            final(self).batch@.len() == 0,
    {
        let mut out: Vec<u8> = Vec::new();
        out.append(&mut self.batch);
        out
    }
}

} // verus!
