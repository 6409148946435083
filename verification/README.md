# lottery

A library that hands out prizes among entrants by lot, verified with Verus.

Each entrant holds a number of tickets; the prizes are handed out in order,
the first prize first, each prize as many times as its count. A draw either
walks down a binary tree of ticket counts (`Lottery::shuffle_tree`) or runs
along a shuffled list of ticket slots (`Lottery::shuffle_array`);
`Lottery::shuffle` picks one of the two by the number of tickets.
`Tickets` is the same lottery over the `User` trait.

The participant traits carry spec functions (`key_spec`, `tickets_spec`,
`accepts_spec`, `takes_to`) that an implementation gives as plain methods describing
what its `key`, `ticket_count` and `add_prize` answer; the contracts of the
draws are stated over them, together with the promise that a participant
that turns a prize down takes no prize any more and stays as it was. Each
draw states what became of every participant: it took, in turn, exactly
the items recorded as won by it (`reaches` in `src/draw.rs`); when no
entrant left a draw with tickets to spare, the draw handed out as many items
as there were or as the tickets add up to, whichever is fewer
(`lemma_handed_out_count`).

The tree of ticket counts is laid out as a complete binary tree, one leaf
per entrant with tickets after the forks, in the order of the entrants
(`laid_out`); each step of a walk goes left exactly when the random value is
below the left subtree's tickets (`SpaceEfficientShuffler::choose_child`),
and lowering a leaf's tickets touches only the nodes on its path to the
root.

Layout of `src/`:

- `prize`, `entrant`, `user`, `ids`: prizes, the participant traits and the
  participants the library ships with.
- `space_efficient_shuffler`: the tree of ticket counts and its draw, and
  `RandomPicker`, a one-step draw over the same tree.
- `draw`: the draws that the lotteries run over the participants taken out
  of their maps, with what they promise (`draw_result`, in the `ensures` of
  every shuffle): no entrant wins more items than the tickets it reported,
  and a draw stops only for want of items or of tickets, where an entrant
  counts as out of the draw only once it refuses every prize.
- `lottery`, `tickets`: the two lotteries.
- `prize_queue`, `heap_tree`, `tally`, `keyed_map`, `random`: the prize
  cursor, tree arithmetic, occurrence counting, the parts of `HashMap` and
  of `rand` that the library calls.
