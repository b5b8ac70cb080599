//! The particle simulation's transport settings: which serializer and
//! sender carry each frame out, how often a frame is sent and logged, and
//! when the binary serializer works on the particles in parallel.
use vstd::prelude::*;

verus! {

/// Options of the JSON serializer (none yet).
pub struct JsonSerializerConfig {}

/// Options of the binary serializer (none yet).
pub struct BinarySerializerConfig {}

/// Options of the null serializer (none).
pub struct NullSerializerConfig {}

/// The serializer of a run, with its options.
pub enum SerializerConfig {
    Json(JsonSerializerConfig),
    Binary(BinarySerializerConfig),
    Null(NullSerializerConfig),
}

/// A sender that writes every `output_frequency`-th frame to a file.
pub struct FileSenderConfig {
    pub output_path: String,
    pub output_frequency: u32,
}

/// A sender that serves every `update_frequency`-th frame over WebSocket.
pub struct WebSocketSenderConfig {
    pub websocket_address: String,
    pub update_frequency: u32,
}

/// Options of the null sender (none).
pub struct NullSenderConfig {}

/// The sender of a run, with its options.
pub enum SenderConfig {
    File(FileSenderConfig),
    WebSocket(WebSocketSenderConfig),
    Null(NullSenderConfig),
}

/// What happens to a particle at the edge of the world.
#[derive(PartialEq, Eq, Structural, Debug, Clone, Copy)]
pub enum BoundaryBehavior {
    Wrap,
    Bounce,
}

/// Parallel serialization as the configuration asks for it.
pub struct ParallelSerializationConfig {
    pub enabled: bool,
    pub threshold: Option<usize>,
    pub thread_count: Option<usize>,
}

/// Why a configuration was refused.
pub enum ConfigError {
    ValidationError(String),
}

/// Loads and checks configurations.
pub struct ConfigLoader;

/// The message of the first check a configuration fails, if any: a positive
/// particle count, positive world dimensions, a positive frame rate, and a
/// positive frequency for a file or WebSocket sender.
pub open spec fn settings_problem(
    particle_count: usize,
    dimensions_positive: bool,
    frame_rate: u32,
    sender: SenderConfig,
) -> Option<Seq<char>> {
    if particle_count == 0 {
        Some("Particle count must be greater than 0"@)
    } else if !dimensions_positive {
        Some("World dimensions must be positive"@)
    } else if frame_rate == 0 {
        Some("Frame rate must be greater than 0"@)
    } else {
        match sender {
            SenderConfig::File(f) => if f.output_frequency == 0 {
                Some("File sender output_frequency must be greater than 0"@)
            } else {
                None
            },
            SenderConfig::WebSocket(w) => if w.update_frequency == 0 {
                Some("WebSocket sender update_frequency must be greater than 0"@)
            } else {
                None
            },
            SenderConfig::Null(_) => None,
        }
    }
}

impl ConfigLoader {
    /// Checks a loaded configuration. `dimensions_positive` tells whether
    /// both world dimensions are above zero; on failure the error carries the
    /// message of the first check that failed.
    pub fn validate(
        particle_count: usize,
        dimensions_positive: bool,
        frame_rate: u32,
        sender: &SenderConfig,
    ) -> (r: Result<(), ConfigError>)
        ensures
            r is Ok <==> settings_problem(particle_count, dimensions_positive, frame_rate, *sender) is None,
            r matches Err(ConfigError::ValidationError(m))
                ==> settings_problem(particle_count, dimensions_positive, frame_rate, *sender) == Some(m@),
    {
        if particle_count == 0 {
            return Err(ConfigError::ValidationError("Particle count must be greater than 0".to_owned()));
        }
        if !dimensions_positive {
            return Err(ConfigError::ValidationError("World dimensions must be positive".to_owned()));
        }
        if frame_rate == 0 {
            return Err(ConfigError::ValidationError("Frame rate must be greater than 0".to_owned()));
        }
        match sender {
            SenderConfig::File(f) => {
                if f.output_frequency == 0 {
                    return Err(ConfigError::ValidationError(
                        "File sender output_frequency must be greater than 0".to_owned(),
                    ));
                }
            },
            SenderConfig::WebSocket(w) => {
                if w.update_frequency == 0 {
                    return Err(ConfigError::ValidationError(
                        "WebSocket sender update_frequency must be greater than 0".to_owned(),
                    ));
                }
            },
            SenderConfig::Null(_) => {},
        }
        Ok(())
    }
}

/// The binary serializer's choice between one pass and parallel chunks:
/// whether parallel work is allowed, from how many particles on it is used,
/// and how many threads to ask for (0: as many as the machine offers).
#[derive(PartialEq, Eq, Structural, Debug, Clone, Copy)]
pub struct ParallelSettings {
    pub use_parallel: bool,
    pub parallel_threshold: usize,
    pub thread_count: usize,
}

impl ParallelSettings {
    /// Parallel work allowed from 50000 particles on, on an automatic
    /// number of threads.
    pub fn new() -> (s: Self)
        ensures
            s == (ParallelSettings { use_parallel: true, parallel_threshold: 50000, thread_count: 0 }),
    {
        ParallelSettings { use_parallel: true, parallel_threshold: 50000, thread_count: 0 }
    }

    /// Allows or forbids parallel work.
    pub fn set_parallel(&mut self, enabled: bool) -> (r: &mut Self)
        ensures
            *r == (ParallelSettings { use_parallel: enabled, ..*old(self) }),
            *final(self) == *final(r),
    {
        self.use_parallel = enabled;
        self
    }

    /// Sets the particle count from which parallel work is used.
    pub fn set_parallel_threshold(&mut self, threshold: usize) -> (r: &mut Self)
        ensures
            *r == (ParallelSettings { parallel_threshold: threshold, ..*old(self) }),
            *final(self) == *final(r),
    {
        self.parallel_threshold = threshold;
        self
    }

    /// Sets the number of threads to ask for (0: automatic).
    pub fn set_thread_count(&mut self, count: usize) -> (r: &mut Self)
        ensures
            *r == (ParallelSettings { thread_count: count, ..*old(self) }),
            *final(self) == *final(r),
    {
        self.thread_count = count;
        self
    }

    /// The particle count from which parallel work is used.
    pub fn parallel_threshold(&self) -> (r: usize)
        ensures
            r == self.parallel_threshold,
    {
        self.parallel_threshold
    }

    /// The number of threads asked for (0: automatic).
    pub fn thread_count(&self) -> (r: usize)
        ensures
            r == self.thread_count,
    {
        self.thread_count
    }

    /// Whether parallel work is allowed.
    pub fn is_parallel(&self) -> (r: bool)
        ensures
            r == self.use_parallel,
    {
        self.use_parallel
    }

    /// Whether a frame of `particle_count` particles is serialized in
    /// parallel chunks rather than in one pass.
    pub fn uses_parallel_path(&self, particle_count: usize) -> (r: bool)
        ensures
            r == (self.use_parallel && particle_count >= self.parallel_threshold),
    {
        self.use_parallel && particle_count >= self.parallel_threshold
    }

    /// The number of particles in each parallel chunk: the threshold, but at
    /// least one.
    pub fn chunk_size(&self) -> (r: usize)
        ensures
            r == if self.parallel_threshold == 0 { 1 } else { self.parallel_threshold },
            r >= 1,
    {
        if self.parallel_threshold == 0 { 1 } else { self.parallel_threshold }
    }
}

/// The serializers a particle run can use.
#[derive(PartialEq, Eq, Structural, Debug, Clone, Copy)]
pub enum SerializerChoice {
    Json,
    Binary,
    Null,
}

/// Where a particle run sends its frames.
pub enum SenderTarget {
    /// A file at this path.
    File(String),
    /// A WebSocket server bound to this address.
    WebSocket(String),
    Null,
}

/// What to do with one frame: send it or not, and, when it is sent, log the
/// transport figures or not.
#[derive(PartialEq, Eq, Structural, Debug, Clone, Copy)]
pub struct FrameDecision {
    pub send: bool,
    pub log: bool,
}

/// Whether frame number `frame` is sent under the given update frequency:
/// every frame without a frequency or with 0, else every multiple of it.
pub open spec fn sends_frame(update_frequency: Option<u32>, frame: int) -> bool {
    match update_frequency {
        Some(f) => !(f > 0 && frame % (f as int) != 0),
        None => true,
    }
}

/// Whether a sent frame number `frame` is logged under the given log
/// frequency: every frame with 0, every multiple of a positive frequency,
/// never without one.
pub open spec fn logs_frame(log_frequency: Option<u32>, frame: int) -> bool {
    match log_frequency {
        Some(f) => f == 0 || frame % (f as int) == 0,
        None => false,
    }
}

/// The decisions of the transport of a particle run: the chosen serializer
/// and sender, the settings of the binary serializer used with WebSocket,
/// and the frame counter that decides which frames are sent and logged.
pub struct TransportController {
    pub serializer: SerializerChoice,
    pub sender: SenderTarget,
    pub optimized: Option<ParallelSettings>,
    pub delta_compression: bool,
    pub update_frequency: Option<u32>,
    pub log_frequency: Option<u32>,
    pub current_frame: u32,
    pub last_data_size_bytes: usize,
}

impl TransportController {
    /// A controller that sends every frame, logs none, and has counted no
    /// frame yet.
    pub fn new(serializer: SerializerChoice, sender: SenderTarget) -> (c: Self)
        ensures
            c.serializer == serializer,
            c.sender == sender,
            c.optimized is None,
            !c.delta_compression,
            c.update_frequency is None,
            c.log_frequency is None,
            c.current_frame == 0,
            c.last_data_size_bytes == 0,
    {
        TransportController {
            serializer,
            sender,
            optimized: None,
            delta_compression: false,
            update_frequency: None,
            log_frequency: None,
            current_frame: 0,
            last_data_size_bytes: 0,
        }
    }

    /// Sets up the transport a configuration describes: the serializer it
    /// names; a file sender at its frequency; a WebSocket sender at its
    /// frequency with the binary serializer's parallel settings (the
    /// defaults, changed by what `parallel` gives) and delta compression when
    /// `delta_compression` is `Some(true)`; or no sender and no frequency.
    pub fn from_config(
        serializer: &SerializerConfig,
        sender: &SenderConfig,
        delta_compression: Option<bool>,
        parallel: &Option<ParallelSerializationConfig>,
        log_frequency: Option<u32>,
    ) -> (c: Self)
        ensures
            c.serializer == match *serializer {
                SerializerConfig::Json(_) => SerializerChoice::Json,
                SerializerConfig::Binary(_) => SerializerChoice::Binary,
                SerializerConfig::Null(_) => SerializerChoice::Null,
            },
            c.log_frequency == log_frequency,
            c.current_frame == 0,
            c.last_data_size_bytes == 0,
            match *sender {
                SenderConfig::File(f) => {
                    &&& c.sender matches SenderTarget::File(p) && p@ == f.output_path@
                    &&& c.update_frequency == Some(f.output_frequency)
                    &&& c.optimized is None
                    &&& !c.delta_compression
                },
                SenderConfig::WebSocket(w) => {
                    &&& c.sender matches SenderTarget::WebSocket(a) && a@ == w.websocket_address@
                    &&& c.update_frequency == Some(w.update_frequency)
                    &&& c.delta_compression == (delta_compression == Some(true))
                    &&& c.optimized == Some(match *parallel {
                        Some(p) => ParallelSettings {
                            use_parallel: p.enabled,
                            parallel_threshold: match p.threshold { Some(t) => t, None => 50000 },
                            thread_count: match p.thread_count { Some(n) => n, None => 0 },
                        },
                        None => ParallelSettings { use_parallel: true, parallel_threshold: 50000, thread_count: 0 },
                    })
                },
                SenderConfig::Null(_) => {
                    &&& c.sender is Null
                    &&& c.update_frequency is None
                    &&& c.optimized is None
                    &&& !c.delta_compression
                },
            },
    {
        let choice = match serializer {
            SerializerConfig::Json(_) => SerializerChoice::Json,
            SerializerConfig::Binary(_) => SerializerChoice::Binary,
            SerializerConfig::Null(_) => SerializerChoice::Null,
        };
        let target;
        let update_frequency;
        let mut optimized = None;
        let mut delta = false;
        match sender {
            SenderConfig::File(f) => {
                update_frequency = Some(f.output_frequency);
                target = SenderTarget::File(f.output_path.clone());
            },
            SenderConfig::WebSocket(w) => {
                update_frequency = Some(w.update_frequency);
                delta = delta_compression == Some(true);
                let mut settings = ParallelSettings::new();
                match parallel {
                    Some(p) => {
                        settings.set_parallel(p.enabled);
                        match p.threshold {
                            Some(t) => {
                                settings.set_parallel_threshold(t);
                            },
                            None => {},
                        }
                        match p.thread_count {
                            Some(n) => {
                                settings.set_thread_count(n);
                            },
                            None => {},
                        }
                    },
                    None => {},
                }
                optimized = Some(settings);
                target = SenderTarget::WebSocket(w.websocket_address.clone());
            },
            SenderConfig::Null(_) => {
                update_frequency = None;
                target = SenderTarget::Null;
            },
        }
        let mut c = TransportController::new(choice, target);
        c.optimized = optimized;
        c.delta_compression = delta;
        c.update_frequency = update_frequency;
        c.log_frequency = log_frequency;
        c
    }

    /// Counts one more frame and decides what to do with it: it is sent as
    /// `sends_frame` says of its number, and a sent frame is logged as
    /// `logs_frame` says.
    pub fn begin_frame(&mut self) -> (d: FrameDecision)
        requires
            old(self).current_frame < u32::MAX,
        ensures
            frame_step(*old(self), *final(self), d),
            final(self).current_frame == old(self).current_frame + 1,
            d.send == sends_frame(old(self).update_frequency, final(self).current_frame as int),
            d.log == (d.send && logs_frame(old(self).log_frequency, final(self).current_frame as int)),
            final(self).serializer == old(self).serializer,
            final(self).sender == old(self).sender,
            final(self).optimized == old(self).optimized,
            final(self).delta_compression == old(self).delta_compression,
            final(self).update_frequency == old(self).update_frequency,
            final(self).log_frequency == old(self).log_frequency,
            final(self).last_data_size_bytes == old(self).last_data_size_bytes,
    {
        self.current_frame = self.current_frame + 1;
        let frame = self.current_frame;
        let send = match self.update_frequency {
            Some(f) => !(f > 0 && frame % f != 0),
            None => true,
        };
        if !send {
            return FrameDecision { send: false, log: false };
        }
        let log = match self.log_frequency {
            Some(f) => f == 0 || frame % f == 0,
            None => false,
        };
        FrameDecision { send: true, log }
    }

    /// Records the size of the data sent last.
    pub fn record_send(&mut self, data_size_bytes: usize)
        ensures
            *final(self) == (TransportController { last_data_size_bytes: data_size_bytes, ..*old(self) }),
    {
        self.last_data_size_bytes = data_size_bytes;
    }

    /// The size of the data sent last, in bytes.
    pub fn last_data_size_bytes(&self) -> (r: usize)
        ensures
            r == self.last_data_size_bytes,
    {
        self.last_data_size_bytes
    }
}

/// One call of `begin_frame` took the controller from `a` to `b` with the
/// decision `d`, as its contract states.
pub open spec fn frame_step(a: TransportController, b: TransportController, d: FrameDecision) -> bool {
    &&& b.current_frame == a.current_frame + 1
    &&& d.send == sends_frame(a.update_frequency, b.current_frame as int)
    &&& d.log == (d.send && logs_frame(a.log_frequency, b.current_frame as int))
    &&& b.update_frequency == a.update_frequency
    &&& b.log_frequency == a.log_frequency
    &&& b.last_data_size_bytes == a.last_data_size_bytes
}

proof fn lemma_frame_count(cs: Seq<TransportController>, ds: Seq<FrameDecision>, i: int)
    requires
        cs.len() == ds.len() + 1,
        cs[0].current_frame == 0,
        forall|j: int| 0 <= j < ds.len() ==> frame_step(#[trigger] cs[j], cs[j + 1], ds[j]),
        0 <= i < cs.len(),
    ensures
        cs[i].current_frame == i,
        cs[i].update_frequency == cs[0].update_frequency,
        cs[i].log_frequency == cs[0].log_frequency,
    decreases i,
{
    if i > 0 {
        lemma_frame_count(cs, ds, i - 1);
        assert(frame_step(cs[i - 1], cs[i], ds[i - 1]));
    }
}

/// The m-th frame of a controller that started at frame 0 (as `new` and
/// `from_config` leave it) is sent exactly when `sends_frame` says so of `m`
/// under the configured update frequency (with frequency `k > 0`: when `m`
/// is a multiple of `k`), is logged as `logs_frame` says, and a skipped frame
/// leaves the recorded data size as it was.
pub proof fn lemma_mth_frame_decision(cs: Seq<TransportController>, ds: Seq<FrameDecision>)
    requires
        cs.len() == ds.len() + 1,
        cs[0].current_frame == 0,
        forall|j: int| 0 <= j < ds.len() ==> frame_step(#[trigger] cs[j], cs[j + 1], ds[j]),
    ensures
        forall|m: int| 1 <= m <= ds.len() ==> {
            &&& (#[trigger] ds[m - 1]).send == sends_frame(cs[0].update_frequency, m)
            &&& ds[m - 1].log == (ds[m - 1].send && logs_frame(cs[0].log_frequency, m))
            &&& !ds[m - 1].send ==> cs[m].last_data_size_bytes == cs[m - 1].last_data_size_bytes
        },
{
    assert forall|m: int| 1 <= m <= ds.len() implies {
        &&& (#[trigger] ds[m - 1]).send == sends_frame(cs[0].update_frequency, m)
        &&& ds[m - 1].log == (ds[m - 1].send && logs_frame(cs[0].log_frequency, m))
        &&& !ds[m - 1].send ==> cs[m].last_data_size_bytes == cs[m - 1].last_data_size_bytes
    } by {
        lemma_frame_count(cs, ds, m - 1);
        lemma_frame_count(cs, ds, m);
        assert(frame_step(cs[m - 1], cs[m], ds[m - 1]));
    }
}

/// A configuration is refused exactly when one of its checked numbers is
/// zero or the world dimensions are not positive: with particles, positive
/// dimensions, a frame rate and a positive frequency for a file or
/// WebSocket sender it is accepted, whatever the frequency's size.
pub proof fn lemma_settings_refused_iff_zero(particle_count: usize, dimensions_positive: bool, frame_rate: u32, sender: SenderConfig)
    ensures
        settings_problem(particle_count, dimensions_positive, frame_rate, sender) is None <==> {
            &&& particle_count > 0
            &&& dimensions_positive
            &&& frame_rate > 0
            &&& match sender {
                SenderConfig::File(f) => f.output_frequency > 0,
                SenderConfig::WebSocket(w) => w.update_frequency > 0,
                SenderConfig::Null(_) => true,
            }
        },
{
}

/// The log rule: a log frequency of 0 logs every sent frame, a positive
/// frequency `f` logs the frames whose number is a multiple of `f`, and no
/// frequency logs nothing; the send rule: no frequency or 0 sends every
/// frame, a positive `f` sends the multiples of `f`.
pub proof fn lemma_frequency_rules(frame: int, f: u32)
    ensures
        logs_frame(Some(0u32), frame),
        !logs_frame(None, frame),
        f > 0 ==> (logs_frame(Some(f), frame) <==> frame % (f as int) == 0),
        sends_frame(None, frame),
        sends_frame(Some(0u32), frame),
        f > 0 ==> (sends_frame(Some(f), frame) <==> frame % (f as int) == 0),
{
}

/// A sender that discards what it is given.
#[derive(PartialEq, Eq, Structural, Debug, Clone, Copy)]
pub struct NullSender;

/// With a positive update frequency `f`, of the frames `k*f + 1` up to
/// `(k+1)*f` exactly the last one is sent.
pub proof fn lemma_one_send_per_period(f: u32, k: nat, j: nat)
    requires
        f > 0,
        1 <= j <= f,
    ensures
        sends_frame(Some(f), k * f + j) <==> j == f,
{
    let n = (k * f + j) as int;
    assert(n % (f as int) == (j as int) % (f as int)) by (nonlinear_arith)
        requires
            n == k * f + j,
            f > 0,
    {
        vstd::arithmetic::div_mod::lemma_mod_multiples_vanish(k as int, j as int, f as int);
    }
    if j == f {
        vstd::arithmetic::div_mod::lemma_mod_self_0(f as int);
    } else {
        vstd::arithmetic::div_mod::lemma_small_mod(j as nat, f as nat);
    }
}

} // verus!
