//! The hyperparameters of a model, the widths that follow from them, and the
//! name under which a snapshot of the model is stored.

use vstd::prelude::*;
use vstd::string::StringExecFns;

verus! {

/// The decimal digit `d` as a character.
pub open spec fn digit(d: nat) -> char
    recommends
        d < 10,
{
    (48 + d) as char
}

/// The decimal digits of `n`, most significant first, without leading zeros.
pub open spec fn decimal(n: nat) -> Seq<char>
    decreases n,
{
    if n < 10 {
        seq![digit(n)]
    } else {
        decimal(n / 10).push(digit(n % 10))
    }
}

/// Appends the decimal digits of `n` to `out`.
pub fn push_decimal(out: &mut String, n: u64)
    ensures
        final(out)@ == old(out)@ + decimal(n as nat),
    decreases n,
{
    if n >= 10 {
        push_decimal(out, n / 10);
    }
    let d: u8 = (n % 10) as u8;
    out.push((48 + d) as char);
    proof {
        let before = old(out)@;
        if n >= 10 {
            assert((before + decimal((n / 10) as nat)).push(digit((n % 10) as nat)) =~= before
                + decimal(n as nat));
        } else {
            assert(before.push(digit(n as nat)) =~= before + decimal(n as nat));
        }
    }
}

/// How a layer of a dense network turns its weighted sums into its output.
#[derive(Clone, Copy, Debug, PartialEq, Eq, Structural)]
pub enum Activation {
    /// The weighted sums are the output.
    Linear,
    /// The weighted sums are normalised into a probability distribution.
    Softmax,
    /// Negative weighted sums are replaced by zero.
    Relu,
}

/// The activation that the two flags of a dense network select: none when it
/// is linear, else softmax when it classifies, else the rectifier.
pub open spec fn activation_of(linear: bool, classifier: bool) -> Activation {
    if linear {
        Activation::Linear
    } else if classifier {
        Activation::Softmax
    } else {
        Activation::Relu
    }
}

impl Activation {
    /// The activation that the two flags of a dense network select.
    pub fn of(linear: bool, classifier: bool) -> (r: Activation)
        ensures
            r == activation_of(linear, classifier),
    {
        if linear {
            Activation::Linear
        } else if classifier {
            Activation::Softmax
        } else {
            Activation::Relu
        }
    }

    /// Whether the backward pass through a layer with this activation drops
    /// the error of a unit whose output was not positive.
    pub fn gates_error(&self) -> (r: bool)
        ensures
            r == (*self == Activation::Relu),
    {
        match self {
            Activation::Relu => true,
            _ => false,
        }
    }
}

/// The shape of the weights between two neighbouring layers of a dense
/// network.
#[derive(Clone, Copy, Debug, PartialEq, Eq, Structural)]
pub struct WeightShape {
    /// The width of the layer that feeds the weights.
    pub rows: usize,
    /// The width of the layer that the weights feed.
    pub cols: usize,
}

/// The shapes of the weight matrices of a dense network with the given layer
/// widths: matrix `i` has the width of layer `i` as its rows and that of layer
/// `i + 1` as its columns.
pub open spec fn weight_shapes(layer_sizes: Seq<usize>) -> Seq<WeightShape> {
    Seq::new(
        (layer_sizes.len() - 1) as nat,
        |i: int| (WeightShape { rows: layer_sizes[i], cols: layer_sizes[i + 1] }),
    )
}

/// The lengths of the bias vectors of a dense network with the given layer
/// widths: the input layer has none, every other layer one per unit.
pub open spec fn bias_lengths(layer_sizes: Seq<usize>) -> Seq<usize> {
    Seq::new(
        layer_sizes.len(),
        |i: int|
            if i == 0 {
                0usize
            } else {
                layer_sizes[i]
            },
    )
}

/// The shapes of the weight matrices of a dense network, or `None` for a
/// network without layers.
pub fn dense_weight_shapes(layer_sizes: &Vec<usize>) -> (r: Option<Vec<WeightShape>>)
    ensures
        layer_sizes@.len() == 0 <==> r is None,
        r matches Some(shapes) ==> shapes@ == weight_shapes(layer_sizes@),
{
    if layer_sizes.len() == 0 {
        return None;
    }
    let last: usize = layer_sizes.len() - 1;
    let mut shapes: Vec<WeightShape> = Vec::new();
    let mut i: usize = 0;
    while i < last
        invariant
            last + 1 == layer_sizes@.len(),
            i <= last,
            shapes@ == weight_shapes(layer_sizes@).take(i as int),
        decreases last - i,
    {
        shapes.push(WeightShape { rows: layer_sizes[i], cols: layer_sizes[i + 1] });
        proof {
            let all = weight_shapes(layer_sizes@);
            assert(all.take(i as int + 1) =~= all.take(i as int).push(all[i as int]));
        }
        i += 1;
    }
    proof {
        let all = weight_shapes(layer_sizes@);
        assert(all.take(i as int) =~= all);
    }
    Some(shapes)
}

/// The lengths of the bias vectors of a dense network.
pub fn dense_bias_lengths(layer_sizes: &Vec<usize>) -> (r: Vec<usize>)
    ensures
        r@ == bias_lengths(layer_sizes@),
{
    let mut lengths: Vec<usize> = Vec::new();
    let mut i: usize = 0;
    while i < layer_sizes.len()
        invariant
            i <= layer_sizes@.len(),
            lengths@ == bias_lengths(layer_sizes@).take(i as int),
        decreases layer_sizes@.len() - i,
    {
        let len: usize = if i == 0 {
            0
        } else {
            layer_sizes[i]
        };
        lengths.push(len);
        proof {
            let all = bias_lengths(layer_sizes@);
            assert(all.take(i as int + 1) =~= all.take(i as int).push(all[i as int]));
        }
        i += 1;
    }
    proof {
        let all = bias_lengths(layer_sizes@);
        assert(all.take(i as int) =~= all);
    }
    lengths
}

/// A number that `d` divides is `d` times the quotient.
proof fn lemma_heads_cover(x: int, d: int)
    requires
        0 <= x,
        0 < d,
        x % d == 0,
    ensures
        (x / d) * d == x,
{
    vstd::arithmetic::div_mod::lemma_fundamental_div_mod(x, d);
    assert((x / d) * d == d * (x / d)) by (nonlinear_arith);
}

/// The hyperparameters that fix the architecture of a model.
#[derive(Clone, Copy, Debug, PartialEq, Eq, Structural)]
pub struct Architecture {
    /// The number of tokens in a message.
    pub num_words: usize,
    /// The length of a token's embedding vector.
    pub dimensionality: usize,
    /// The number of encoder blocks.
    pub num_encoders: usize,
    /// The number of attention heads in each encoder block.
    pub num_heads: usize,
    /// The width of the hidden layer of each feed-forward network.
    pub hidden_layer_size: usize,
}

/// The number of classes that the model tells apart.
pub const NUM_CLASSES: usize = 2;

impl Architecture {
    /// Whether a model can be built with these hyperparameters: the heads
    /// divide the dimensionality evenly, and a whole message of embeddings can
    /// be counted.
    pub open spec fn valid(self) -> bool {
        &&& self.num_heads > 0
        &&& self.dimensionality % self.num_heads == 0
        &&& self.num_words * self.dimensionality <= usize::MAX
    }

    /// The number of columns that each attention head works on.
    pub open spec fn spec_head_width(self) -> int {
        self.dimensionality as int / self.num_heads as int
    }

    /// The length of a message's embeddings written as one vector.
    pub open spec fn spec_flat_width(self) -> int {
        self.num_words * self.dimensionality
    }

    /// The hyperparameters as an architecture, or `None` where no model can
    /// be built with them.
    pub fn new(
        num_words: usize,
        dimensionality: usize,
        num_encoders: usize,
        num_heads: usize,
        hidden_layer_size: usize,
    ) -> (r: Option<Architecture>)
        ensures
            r matches Some(a) ==> a == (Architecture {
                num_words,
                dimensionality,
                num_encoders,
                num_heads,
                hidden_layer_size,
            }),
            r is Some <==> (Architecture {
                num_words,
                dimensionality,
                num_encoders,
                num_heads,
                hidden_layer_size,
            }).valid(),
    {
        if num_heads == 0 || dimensionality % num_heads != 0 {
            return None;
        }
        match num_words.checked_mul(dimensionality) {
            Some(_) => Some(
                Architecture {
                    num_words,
                    dimensionality,
                    num_encoders,
                    num_heads,
                    hidden_layer_size,
                },
            ),
            None => None,
        }
    }

    /// The number of columns that each attention head works on.
    pub fn head_width(&self) -> (r: usize)
        requires
            self.valid(),
        ensures
            r == self.spec_head_width(),
            r * self.num_heads == self.dimensionality,
    {
        proof {
            lemma_heads_cover(self.dimensionality as int, self.num_heads as int);
        }
        self.dimensionality / self.num_heads
    }

    /// The columns of the embeddings that the attention head `head` works on:
    /// the first, and the one behind the last.
    pub open spec fn spec_head_columns(self, head: int) -> (int, int) {
        (head * self.spec_head_width(), (head + 1) * self.spec_head_width())
    }

    /// The columns of the embeddings that the attention head `head` works on:
    /// the first, and the one behind the last.
    pub fn head_columns(&self, head: usize) -> (r: (usize, usize))
        requires
            self.valid(),
            head < self.num_heads,
        ensures
            (r.0 as int, r.1 as int) == self.spec_head_columns(head as int),
            r.1 - r.0 == self.spec_head_width(),
            r.1 <= self.dimensionality,
    {
        let width = self.head_width();
        proof {
            lemma_head_columns(*self, head as int);
        }
        (head * width, head * width + width)
    }

    /// The length of a message's embeddings written as one vector.
    pub fn flat_width(&self) -> (r: usize)
        requires
            self.valid(),
        ensures
            r == self.spec_flat_width(),
    {
        self.num_words * self.dimensionality
    }

    /// The layer widths of the feed-forward network of an encoder block: it
    /// reads a whole message, passes it through the hidden layer and gives a
    /// whole message back.
    pub fn feed_forward_sizes(&self) -> (r: Vec<usize>)
        requires
            self.valid(),
        ensures
            r@ == seq![
                self.spec_flat_width() as usize,
                self.hidden_layer_size,
                self.spec_flat_width() as usize,
            ],
    {
        let flat = self.flat_width();
        let mut sizes: Vec<usize> = Vec::new();
        sizes.push(flat);
        sizes.push(self.hidden_layer_size);
        sizes.push(flat);
        proof {
            assert(sizes@ =~= seq![flat, self.hidden_layer_size, flat]);
        }
        sizes
    }

    /// The layer widths of the classifier: it reads a whole message and gives
    /// one value for each class.
    pub fn classifier_sizes(&self) -> (r: Vec<usize>)
        requires
            self.valid(),
        ensures
            r@ == seq![self.spec_flat_width() as usize, NUM_CLASSES],
    {
        let flat = self.flat_width();
        let mut sizes: Vec<usize> = Vec::new();
        sizes.push(flat);
        sizes.push(NUM_CLASSES);
        proof {
            assert(sizes@ =~= seq![flat, NUM_CLASSES]);
        }
        sizes
    }

    /// The file name of a snapshot of a model with this architecture that was
    /// made `timestamp` seconds after the epoch.
    pub open spec fn spec_model_file_name(self, timestamp: u64) -> Seq<char> {
        decimal(timestamp as nat) + "_chtbt_model_"@ + decimal(self.num_words as nat) + "_"@
            + decimal(self.dimensionality as nat) + "_"@ + decimal(self.num_encoders as nat) + "_"@
            + decimal(self.num_heads as nat) + "_"@ + decimal(self.hidden_layer_size as nat)
            + ".json"@
    }

    /// The file name of a snapshot of a model with this architecture that was
    /// made `timestamp` seconds after the epoch: the time and the five
    /// hyperparameters in decimal.
    pub fn model_file_name(&self, timestamp: u64) -> (r: String)
        ensures
            r@ == self.spec_model_file_name(timestamp),
    {
        let mut name = String::new();
        push_decimal(&mut name, timestamp);
        name.append("_chtbt_model_");
        push_decimal(&mut name, self.num_words as u64);
        name.append("_");
        push_decimal(&mut name, self.dimensionality as u64);
        name.append("_");
        push_decimal(&mut name, self.num_encoders as u64);
        name.append("_");
        push_decimal(&mut name, self.num_heads as u64);
        name.append("_");
        push_decimal(&mut name, self.hidden_layer_size as u64);
        name.append(".json");
        proof {
            assert(Seq::<char>::empty() + decimal(timestamp as nat) =~= decimal(timestamp as nat));
        }
        name
    }
}

/// The columns of an attention head lie within the embeddings and are as many
/// as the head is wide.
proof fn lemma_head_columns(a: Architecture, head: int)
    requires
        a.valid(),
        0 <= head < a.num_heads,
    ensures
        0 <= a.spec_head_columns(head).0 <= a.spec_head_columns(head).1 <= a.dimensionality,
        a.spec_head_columns(head).1 == a.spec_head_columns(head).0 + a.spec_head_width(),
{
    let width = a.spec_head_width();
    let heads = a.num_heads as int;
    lemma_heads_cover(a.dimensionality as int, heads);
    assert(width >= 0) by (nonlinear_arith)
        requires
            width * heads == a.dimensionality,
            heads > 0,
    ;
    assert((head + 1) * width == head * width + width) by (nonlinear_arith);
    assert(0 <= head * width) by (nonlinear_arith)
        requires
            head >= 0,
            width >= 0,
    ;
    assert((head + 1) * width <= width * heads) by (nonlinear_arith)
        requires
            head + 1 <= heads,
            width >= 0,
    ;
}

/// The attention heads share the columns of the embeddings: the first head
/// starts at column 0, each head ends where the next starts, and the last ends
/// behind the last column. All heads are equally wide.
pub proof fn lemma_heads_tile(a: Architecture)
    requires
        a.valid(),
    ensures
        a.spec_head_columns(0).0 == 0,
        a.spec_head_columns(a.num_heads - 1).1 == a.dimensionality,
        forall|h: int|
            0 <= h < a.num_heads ==> (#[trigger] a.spec_head_columns(h)).1 - a.spec_head_columns(
                h,
            ).0 == a.spec_head_width(),
        forall|h: int|
            0 <= h < a.num_heads - 1 ==> (#[trigger] a.spec_head_columns(h)).1
                == a.spec_head_columns(h + 1).0,
{
    let width = a.spec_head_width();
    lemma_heads_cover(a.dimensionality as int, a.num_heads as int);
    assert(0 * width == 0);
    assert((a.num_heads - 1 + 1) * width == width * a.num_heads) by (nonlinear_arith);
    assert forall|h: int| 0 <= h < a.num_heads implies (#[trigger] a.spec_head_columns(h)).1
        - a.spec_head_columns(h).0 == a.spec_head_width() by {
        lemma_head_columns(a, h);
    }
}

/// The widths that the parts of a model hand to each other agree: the heads
/// together cover the dimensionality, the feed-forward network of an encoder
/// block gives back as many values as it reads, that number is the size of a
/// message of embeddings, and the classifier reads as many and tells the two
/// classes apart.
pub proof fn lemma_widths_agree(a: Architecture)
    requires
        a.valid(),
    ensures
        a.spec_head_width() * a.num_heads == a.dimensionality,
        0 <= a.spec_flat_width() <= usize::MAX,
        weight_shapes(
            seq![
                a.spec_flat_width() as usize,
                a.hidden_layer_size,
                a.spec_flat_width() as usize,
            ],
        ) == seq![
            (WeightShape { rows: a.spec_flat_width() as usize, cols: a.hidden_layer_size }),
            (WeightShape { rows: a.hidden_layer_size, cols: a.spec_flat_width() as usize }),
        ],
        weight_shapes(seq![a.spec_flat_width() as usize, NUM_CLASSES]) == seq![
            (WeightShape { rows: a.spec_flat_width() as usize, cols: NUM_CLASSES }),
        ],
{
    lemma_heads_cover(a.dimensionality as int, a.num_heads as int);
    let flat = a.spec_flat_width() as usize;
    assert(weight_shapes(seq![flat, a.hidden_layer_size, flat]) =~= seq![
        (WeightShape { rows: flat, cols: a.hidden_layer_size }),
        (WeightShape { rows: a.hidden_layer_size, cols: flat }),
    ]);
    assert(weight_shapes(seq![flat, NUM_CLASSES]) =~= seq![
        (WeightShape { rows: flat, cols: NUM_CLASSES }),
    ]);
}

} // verus!
