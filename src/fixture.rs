use vstd::prelude::*;

verus! {

/// Number of channels that one frame on the bus carries.
pub const DMX_CHANNELS: usize = 512;

/// An addressable lighting unit: `values[k]` is the level of bus channel
/// `first_channel + k`.
#[derive(Debug)]
pub struct Fixture {
    pub name: String,
    pub first_channel: u16,
    pub values: Vec<u8>,
}

/// A colour light made of three or four channels of one fixture.
#[derive(Clone, Copy, Debug, PartialEq, Eq)]
pub struct ColorLight {
    /// Index of the fixture in the universe that owns this light.
    pub fixture: usize,
    pub red: u16,
    pub green: u16,
    pub blue: u16,
    pub white: Option<u16>,
}

impl Fixture {
    /// Whether this fixture drives bus channel `c`.
    pub open spec fn covers(&self, c: int) -> bool {
        self.first_channel <= c < self.first_channel + self.values@.len()
    }

    /// The level this fixture gives bus channel `c`, when it covers it.
    pub open spec fn level(&self, c: int) -> u8 {
        self.values@[c - self.first_channel]
    }

    /// A fixture of `count` channels from `first_channel` on, all dark.
    pub fn new(name: String, first_channel: u16, count: u16) -> (r: Fixture)
        ensures
            r.name@ == name@,
            r.first_channel == first_channel,
            r.values@ == Seq::new(count as nat, |k: int| 0u8),
    {
        let values: Vec<u8> = vec![0u8; count as usize];
        proof {
            assert(values@ =~= Seq::new(count as nat, |k: int| 0u8));
        }
        Fixture { name, first_channel, values }
    }
}

impl ColorLight {
    /// A red, green and blue light over fixture `fixture`.
    pub fn rgb(fixture: usize, red: u16, green: u16, blue: u16) -> (r: ColorLight)
        ensures
            r == (ColorLight { fixture, red, green, blue, white: None }),
    {
        ColorLight { fixture, red, green, blue, white: None }
    }

    /// A red, green, blue and white light over fixture `fixture`.
    pub fn rgbw(fixture: usize, red: u16, green: u16, blue: u16, white: u16) -> (r: ColorLight)
        ensures
            r == (ColorLight { fixture, red, green, blue, white: Some(white) }),
    {
        ColorLight { fixture, red, green, blue, white: Some(white) }
    }
}

/// The level of bus channel `c` when the fixtures of `fs` are written in
/// order: the last fixture that covers the channel decides, and a channel
/// that no fixture covers is dark.
pub open spec fn channel_level(fs: Seq<Fixture>, c: int) -> u8
    decreases fs.len(),
{
    if fs.len() == 0 {
        0
    } else if fs.last().covers(c) {
        fs.last().level(c)
    } else {
        channel_level(fs.drop_last(), c)
    }
}

/// A frame for the bus: the start code, then the level of each of its
/// channels.
pub open spec fn is_frame_of(frame: Seq<u8>, fs: Seq<Fixture>) -> bool {
    &&& frame.len() == DMX_CHANNELS + 1
    &&& frame[0] == 0
    &&& forall|c: int| 1 <= c <= DMX_CHANNELS ==> #[trigger] frame[c] == channel_level(fs, c)
}

/// Serializes the first `count` fixtures of `fixtures` into one frame.
pub fn frame(fixtures: &Vec<Fixture>, count: usize) -> (r: Vec<u8>)
    requires
        count <= fixtures.len(),
    ensures
        is_frame_of(r@, fixtures@.take(count as int)),
{
    let mut out: Vec<u8> = vec![0u8; DMX_CHANNELS + 1];
    let mut i: usize = 0;
    while i < count
        invariant
            count <= fixtures.len(),
            i <= count,
            out@.len() == DMX_CHANNELS + 1,
            out@[0] == 0,
            forall|c: int|
                1 <= c <= DMX_CHANNELS ==> #[trigger] out@[c] == channel_level(
                    fixtures@.take(i as int),
                    c,
                ),
        decreases count - i,
    {
        let f = &fixtures[i];
        let first = f.first_channel as usize;
        // only the channels from `first` to the last one of the bus are written
        let room: usize = if first <= DMX_CHANNELS {
            DMX_CHANNELS + 1 - first
        } else {
            0
        };
        let n: usize = if f.values.len() < room {
            f.values.len()
        } else {
            room
        };
        let mut k: usize = 0;
        while k < n
            invariant
                n <= f.values@.len(),
                n == f.values@.len() || first + n == DMX_CHANNELS + 1 || first > DMX_CHANNELS,
                n == 0 || first + n <= DMX_CHANNELS + 1,
                i < count <= fixtures.len(),
                f == fixtures@[i as int],
                first == f.first_channel,
                k <= n,
                out@.len() == DMX_CHANNELS + 1,
                out@[0] == 0,
                forall|c: int|
                    1 <= c <= DMX_CHANNELS ==> #[trigger] out@[c] == if first <= c < first + k {
                        f.level(c)
                    } else {
                        channel_level(fixtures@.take(i as int), c)
                    },
            decreases n - k,
        {
            let c = first + k;
            if 1 <= c {
                out.set(c, f.values[k]);
            }
            k = k + 1;
        }
        proof {
            let next = fixtures@.take(i + 1);
            assert(next.drop_last() =~= fixtures@.take(i as int));
            assert(next.last() == f);
            assert forall|c: int| 1 <= c <= DMX_CHANNELS implies #[trigger] out@[c] == channel_level(next, c) by {
                assert(f.covers(c) == (first <= c < first + n));
            }
        }
        i = i + 1;
    }
    proof {
        assert(fixtures@.take(count as int) =~= fixtures@.take(i as int));
    }
    out
}

} // verus!
